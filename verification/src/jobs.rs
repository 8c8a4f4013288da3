//! Jobs: graphs of roles, with fixed tasks or with alternative implementations.

use vstd::prelude::*;

use crate::binary64::Binary64;
use crate::ids::JobId;
use crate::tasks::{TaskTemplate, TemplateModel};

verus! {

#[derive(Debug, PartialEq)]
pub struct CooperativeRoleSpec {
    pub name: String,
    pub task: TaskTemplate,
    pub depends_on: Vec<String>,
}

#[verifier::ext_equal]
pub struct CooperativeRoleModel {
    pub name: Seq<char>,
    pub task: TemplateModel,
    pub depends_on: Seq<Seq<char>>,
}

impl View for CooperativeRoleSpec {
    type V = CooperativeRoleModel;

    open spec fn view(&self) -> CooperativeRoleModel {
        CooperativeRoleModel {
            name: self.name@,
            task: self.task@,
            depends_on: crate::text::views(self.depends_on@),
        }
    }
}

impl Clone for CooperativeRoleSpec {
    fn clone(&self) -> (r: CooperativeRoleSpec)
        ensures
            r@ == self@,
    {
        let r = CooperativeRoleSpec {
            name: self.name.clone(),
            task: self.task.clone(),
            depends_on: self.depends_on.clone(),
        };
        assert(r@.depends_on =~= self@.depends_on);
        r
    }
}

#[derive(Debug, PartialEq)]
pub struct CooperativeJobSpec {
    pub id: JobId,
    pub roles: Vec<CooperativeRoleSpec>,
    /// Outputs from these terminal roles form the logical job result.
    pub outputs: Vec<String>,
}

#[verifier::ext_equal]
pub struct CooperativeJobModel {
    pub id: JobId,
    pub roles: Seq<CooperativeRoleModel>,
    pub outputs: Seq<Seq<char>>,
}

impl View for CooperativeJobSpec {
    type V = CooperativeJobModel;

    open spec fn view(&self) -> CooperativeJobModel {
        CooperativeJobModel {
            id: self.id,
            roles: crate::text::views(self.roles@),
            outputs: crate::text::views(self.outputs@),
        }
    }
}

impl Clone for CooperativeJobSpec {
    fn clone(&self) -> (r: CooperativeJobSpec)
        ensures
            r@ == self@,
    {
        let r = CooperativeJobSpec {
            id: self.id,
            roles: self.roles.clone(),
            outputs: self.outputs.clone(),
        };
        assert(r@.roles =~= self@.roles);
        assert(r@.outputs =~= self@.outputs);
        r
    }
}

#[derive(Debug, PartialEq)]
pub struct RoleImplementation {
    pub name: String,
    pub task: TaskTemplate,
}

pub struct ImplementationModel {
    pub name: Seq<char>,
    pub task: TemplateModel,
}

impl View for RoleImplementation {
    type V = ImplementationModel;

    open spec fn view(&self) -> ImplementationModel {
        ImplementationModel { name: self.name@, task: self.task@ }
    }
}

impl Clone for RoleImplementation {
    fn clone(&self) -> (r: RoleImplementation)
        ensures
            r@ == self@,
    {
        RoleImplementation { name: self.name.clone(), task: self.task.clone() }
    }
}

/// How the work of a role may be cut.
#[derive(Debug, PartialEq)]
pub enum ShardPartitionSpec {
    /// Into consecutive byte ranges of one explicit input.
    ByteRange { input: usize },
    /// Into spans of whole records of one explicit input. The offsets are those at which its records
    /// begin, and its length.
    Records { input: usize, offsets: Vec<u64> },
}

#[verifier::ext_equal]
pub enum PartitionModel {
    ByteRange { input: usize },
    Records { input: usize, offsets: Seq<u64> },
}

impl View for ShardPartitionSpec {
    type V = PartitionModel;

    open spec fn view(&self) -> PartitionModel {
        match self {
            ShardPartitionSpec::ByteRange { input } => PartitionModel::ByteRange { input: *input },
            ShardPartitionSpec::Records { input, offsets } => PartitionModel::Records {
                input: *input,
                offsets: offsets@,
            },
        }
    }
}

impl Clone for ShardPartitionSpec {
    fn clone(&self) -> (r: ShardPartitionSpec)
        ensures
            r@ == self@,
    {
        match self {
            ShardPartitionSpec::ByteRange { input } => ShardPartitionSpec::ByteRange { input: *input },
            ShardPartitionSpec::Records { input, offsets } => ShardPartitionSpec::Records {
                input: *input,
                offsets: offsets.clone(),
            },
        }
    }
}

impl PartitionModel {
    /// The position of the input that is cut.
    pub open spec fn position(self) -> usize {
        match self {
            PartitionModel::ByteRange { input } => input,
            PartitionModel::Records { input, .. } => input,
        }
    }
}

impl ShardPartitionSpec {
    pub fn input(&self) -> (r: usize)
        ensures
            r == self@.position(),
    {
        match self {
            ShardPartitionSpec::ByteRange { input } => *input,
            ShardPartitionSpec::Records { input, .. } => *input,
        }
    }
}

/// Lets the planner choose the number of shards.
#[derive(Debug, PartialEq)]
pub struct AutoShardPolicy {
    pub max_shards: u32,
    pub partition: ShardPartitionSpec,
    /// Added to the compute time of every shard.
    pub per_shard_overhead_ms: Binary64,
    /// The least relative gain in modeled time for which more shards are taken.
    pub min_gain_ratio: Binary64,
}

#[verifier::ext_equal]
pub struct AutoShardModel {
    pub max_shards: u32,
    pub partition: PartitionModel,
    pub per_shard_overhead_ms: Binary64,
    pub min_gain_ratio: Binary64,
}

impl View for AutoShardPolicy {
    type V = AutoShardModel;

    open spec fn view(&self) -> AutoShardModel {
        AutoShardModel {
            max_shards: self.max_shards,
            partition: self.partition@,
            per_shard_overhead_ms: self.per_shard_overhead_ms,
            min_gain_ratio: self.min_gain_ratio,
        }
    }
}

impl Clone for AutoShardPolicy {
    fn clone(&self) -> (r: AutoShardPolicy)
        ensures
            r@ == self@,
    {
        AutoShardPolicy {
            max_shards: self.max_shards,
            partition: self.partition.clone(),
            per_shard_overhead_ms: self.per_shard_overhead_ms,
            min_gain_ratio: self.min_gain_ratio,
        }
    }
}

#[derive(Debug, PartialEq)]
pub enum ShardPolicySpec {
    Auto(AutoShardPolicy),
}

/// The number of independent contributions that a role needs.
#[derive(Debug, PartialEq)]
pub enum ShardPolicy {
    /// Each of the shards receives the same logical inputs; cost hints are per shard.
    Fixed(u32),
    /// Cost hints describe the whole work, of which each shard does a part.
    Policy(ShardPolicySpec),
}

#[verifier::ext_equal]
pub enum ShardPolicyModel {
    Fixed(u32),
    Auto(AutoShardModel),
}

impl View for ShardPolicy {
    type V = ShardPolicyModel;

    open spec fn view(&self) -> ShardPolicyModel {
        match self {
            ShardPolicy::Fixed(count) => ShardPolicyModel::Fixed(*count),
            ShardPolicy::Policy(ShardPolicySpec::Auto(policy)) => ShardPolicyModel::Auto(policy@),
        }
    }
}

impl Clone for ShardPolicySpec {
    fn clone(&self) -> (r: ShardPolicySpec)
        ensures
            ShardPolicy::Policy(r)@ == ShardPolicy::Policy(*self)@,
    {
        match self {
            ShardPolicySpec::Auto(policy) => ShardPolicySpec::Auto(policy.clone()),
        }
    }
}

impl Clone for ShardPolicy {
    fn clone(&self) -> (r: ShardPolicy)
        ensures
            r@ == self@,
    {
        match self {
            ShardPolicy::Fixed(count) => ShardPolicy::Fixed(*count),
            ShardPolicy::Policy(policy) => ShardPolicy::Policy(policy.clone()),
        }
    }
}

impl ShardPolicyModel {
    pub open spec fn automatic(self) -> Option<AutoShardModel> {
        match self {
            ShardPolicyModel::Auto(policy) => Some(policy),
            ShardPolicyModel::Fixed(_) => None,
        }
    }

    /// A role that runs as one ordinary task.
    pub open spec fn single(self) -> bool {
        self matches ShardPolicyModel::Fixed(count) && count == 1
    }
}

impl ShardPolicy {
    pub fn auto(&self) -> (r: Option<&AutoShardPolicy>)
        ensures
            match r {
                Some(policy) => self@.automatic() == Some(policy@),
                None => self@.automatic() is None,
            },
    {
        match self {
            ShardPolicy::Policy(ShardPolicySpec::Auto(policy)) => Some(policy),
            ShardPolicy::Fixed(_) => None,
        }
    }

    pub fn is_single(&self) -> (r: bool)
        ensures
            r == self@.single(),
    {
        match self {
            ShardPolicy::Fixed(count) => *count == 1,
            ShardPolicy::Policy(_) => false,
        }
    }
}

/// The number of shards of a role that does not state one.
pub fn default_role_shards() -> (r: ShardPolicy)
    ensures
        r == ShardPolicy::Fixed(1),
{
    ShardPolicy::Fixed(1)
}

impl Default for ShardPolicy {
    fn default() -> (r: ShardPolicy)
        ensures
            r == ShardPolicy::Fixed(1),
    {
        default_role_shards()
    }
}

impl From<u32> for ShardPolicy {
    fn from(count: u32) -> (r: ShardPolicy) {
        ShardPolicy::Fixed(count)
    }
}

impl vstd::std_specs::convert::FromSpecImpl<u32> for ShardPolicy {
    open spec fn obeys_from_spec() -> bool {
        true
    }

    open spec fn from_spec(count: u32) -> ShardPolicy {
        ShardPolicy::Fixed(count)
    }
}

/// How the contributions of a sharded role are brought together: by tasks that take some of them, in
/// order, until one object is left. The operation has to be associative; it need not be commutative.
#[derive(Debug, PartialEq)]
pub struct RoleReductionSpec {
    pub name: String,
    pub task: TaskTemplate,
    /// The most objects that one reducer takes.
    pub max_fan_in: u32,
    /// Objects are reduced close to each other first: up to this round-trip time apart.
    pub locality_rtt_ms: Binary64,
}

pub struct ReductionModel {
    pub name: Seq<char>,
    pub task: TemplateModel,
    pub max_fan_in: u32,
    pub locality_rtt_ms: Binary64,
}

impl View for RoleReductionSpec {
    type V = ReductionModel;

    open spec fn view(&self) -> ReductionModel {
        ReductionModel {
            name: self.name@,
            task: self.task@,
            max_fan_in: self.max_fan_in,
            locality_rtt_ms: self.locality_rtt_ms,
        }
    }
}

impl Clone for RoleReductionSpec {
    fn clone(&self) -> (r: RoleReductionSpec)
        ensures
            r@ == self@,
    {
        RoleReductionSpec {
            name: self.name.clone(),
            task: self.task.clone(),
            max_fan_in: self.max_fan_in,
            locality_rtt_ms: self.locality_rtt_ms,
        }
    }
}

#[derive(Debug, PartialEq)]
pub struct LogicalRoleSpec {
    pub name: String,
    pub implementations: Vec<RoleImplementation>,
    pub depends_on: Vec<String>,
    pub shards: ShardPolicy,
    pub reduction: Option<RoleReductionSpec>,
}

#[verifier::ext_equal]
pub struct LogicalRoleModel {
    pub name: Seq<char>,
    pub implementations: Seq<ImplementationModel>,
    pub depends_on: Seq<Seq<char>>,
    pub shards: ShardPolicyModel,
    pub reduction: Option<ReductionModel>,
}

impl View for LogicalRoleSpec {
    type V = LogicalRoleModel;

    open spec fn view(&self) -> LogicalRoleModel {
        LogicalRoleModel {
            name: self.name@,
            implementations: crate::text::views(self.implementations@),
            depends_on: crate::text::views(self.depends_on@),
            shards: self.shards@,
            reduction: crate::text::view_of(self.reduction),
        }
    }
}

impl Clone for LogicalRoleSpec {
    fn clone(&self) -> (r: LogicalRoleSpec)
        ensures
            r@ == self@,
    {
        let r = LogicalRoleSpec {
            name: self.name.clone(),
            implementations: self.implementations.clone(),
            depends_on: self.depends_on.clone(),
            shards: self.shards.clone(),
            reduction: self.reduction.clone(),
        };
        assert(r@.implementations =~= self@.implementations);
        assert(r@.depends_on =~= self@.depends_on);
        r
    }
}

/// A cooperative computation whose role boundaries are declared by the application or a domain
/// library, while the planner chooses concrete implementations and predicts placements.
#[derive(Debug, PartialEq)]
pub struct LogicalJobSpec {
    pub id: JobId,
    pub roles: Vec<LogicalRoleSpec>,
    pub outputs: Vec<String>,
}

#[verifier::ext_equal]
pub struct LogicalJobModel {
    pub id: JobId,
    pub roles: Seq<LogicalRoleModel>,
    pub outputs: Seq<Seq<char>>,
}

impl View for LogicalJobSpec {
    type V = LogicalJobModel;

    open spec fn view(&self) -> LogicalJobModel {
        LogicalJobModel {
            id: self.id,
            roles: crate::text::views(self.roles@),
            outputs: crate::text::views(self.outputs@),
        }
    }
}

impl Clone for LogicalJobSpec {
    fn clone(&self) -> (r: LogicalJobSpec)
        ensures
            r@ == self@,
    {
        let r = LogicalJobSpec {
            id: self.id,
            roles: self.roles.clone(),
            outputs: self.outputs.clone(),
        };
        assert(r@.roles =~= self@.roles);
        assert(r@.outputs =~= self@.outputs);
        r
    }
}

#[derive(Debug, PartialEq)]
pub enum JobDefinition {
    Cooperative(CooperativeJobSpec),
    Logical(LogicalJobSpec),
}

pub enum JobModel {
    Cooperative(CooperativeJobModel),
    Logical(LogicalJobModel),
}

impl View for JobDefinition {
    type V = JobModel;

    open spec fn view(&self) -> JobModel {
        match self {
            JobDefinition::Cooperative(spec) => JobModel::Cooperative(spec@),
            JobDefinition::Logical(spec) => JobModel::Logical(spec@),
        }
    }
}

impl Clone for JobDefinition {
    fn clone(&self) -> (r: JobDefinition)
        ensures
            r@ == self@,
    {
        match self {
            JobDefinition::Cooperative(spec) => JobDefinition::Cooperative(spec.clone()),
            JobDefinition::Logical(spec) => JobDefinition::Logical(spec.clone()),
        }
    }
}

}
