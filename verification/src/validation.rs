//! Which jobs are valid, and the first thing wrong with those that are not.

use std::collections::BTreeMap;
use vstd::prelude::*;
use vstd::string::*;

use crate::binary64::Binary64;
use crate::ids::ObjectId;
use crate::jobs::{
    AutoShardModel, AutoShardPolicy, CooperativeJobModel, CooperativeJobSpec, CooperativeRoleModel,
    ImplementationModel, LogicalJobModel, LogicalJobSpec, LogicalRoleModel, LogicalRoleSpec,
    PartitionModel, ReductionModel, RoleImplementation, RoleReductionSpec, ShardPartitionSpec,
    ShardPolicy, ShardPolicyModel, ShardPolicySpec,
};
use crate::objects::{ObjectMetadata, ObjectModel};
use crate::tasks::{PipelineInput, StageModel, TaskModel, TaskPipelineStage, TaskSpec};
use crate::role_graph::{validate_role_graph, NodeModel, RoleNode};
use crate::text::{concat2, concat3, concat4, concat5, decimal_text, has_prefix, is_blank, same_text};

verus! {

broadcast use vstd::std_specs::btree::group_btree_axioms;

/// The most shards that an automatic policy may ask for.
pub const MAX_AUTO_SHARDS: u32 = 256;

/// Why a plan cannot be made.
#[derive(Debug, PartialEq)]
pub enum PlanError {
    InvalidLogicalJob(String),
    NoFeasibleImplementation(String),
}

pub enum PlanErrorModel {
    InvalidLogicalJob(Seq<char>),
    NoFeasibleImplementation(Seq<char>),
}

impl View for PlanError {
    type V = PlanErrorModel;

    open spec fn view(&self) -> PlanErrorModel {
        match self {
            PlanError::InvalidLogicalJob(message) => PlanErrorModel::InvalidLogicalJob(message@),
            PlanError::NoFeasibleImplementation(role) => PlanErrorModel::NoFeasibleImplementation(role@),
        }
    }
}

impl Clone for PlanError {
    fn clone(&self) -> (r: PlanError)
        ensures
            r@ == self@,
    {
        match self {
            PlanError::InvalidLogicalJob(message) => PlanError::InvalidLogicalJob(message.clone()),
            PlanError::NoFeasibleImplementation(role) => PlanError::NoFeasibleImplementation(role.clone()),
        }
    }
}

impl PlanErrorModel {
    pub open spec fn description(self) -> Seq<char> {
        match self {
            PlanErrorModel::InvalidLogicalJob(message) => "invalid logical job: "@ + message,
            PlanErrorModel::NoFeasibleImplementation(role) => "role "@ + role
                + " has no feasible implementation on the current resources/topology"@,
        }
    }
}

impl PlanError {
    pub fn message(&self) -> (r: String)
        ensures
            r@ == self@.description(),
    {
        match self {
            PlanError::InvalidLogicalJob(message) => concat2("invalid logical job: ", message.as_str()),
            PlanError::NoFeasibleImplementation(role) => concat3(
                "role ",
                role.as_str(),
                " has no feasible implementation on the current resources/topology",
            ),
        }
    }
}

/// The role graph of a logical job.
pub open spec fn logical_graph(roles: Seq<LogicalRoleModel>) -> Seq<NodeModel> {
    Seq::new(
        roles.len(),
        |i: int| NodeModel { name: roles[i].name, depends_on: roles[i].depends_on },
    )
}

/// The role graph of a cooperative job.
pub open spec fn cooperative_graph(roles: Seq<CooperativeRoleModel>) -> Seq<NodeModel> {
    Seq::new(
        roles.len(),
        |i: int| NodeModel { name: roles[i].name, depends_on: roles[i].depends_on },
    )
}

/// A role without work to do, or with a policy that cannot be followed.
pub open spec fn policy_error(name: Seq<char>, shards: ShardPolicyModel) -> Option<Seq<char>> {
    match shards {
        ShardPolicyModel::Fixed(count) => if count == 0 {
            Some("role "@ + name + " must request at least one shard"@)
        } else {
            None
        },
        ShardPolicyModel::Auto(policy) => {
            let nil = Binary64 { bits: 0 };
            if policy.max_shards == 0 || policy.max_shards > MAX_AUTO_SHARDS {
                Some(
                    "role "@ + name + " auto max_shards must be between 1 and "@
                        + crate::text::decimal(MAX_AUTO_SHARDS as nat),
                )
            } else if !policy.per_shard_overhead_ms.finite() || policy.per_shard_overhead_ms.less(nil) {
                Some(
                    "role "@ + name
                        + " auto per_shard_overhead_ms must be finite and non-negative"@,
                )
            } else if !policy.min_gain_ratio.finite() || policy.min_gain_ratio.less(nil)
                || Binary64::nearest_to(1).at_most(policy.min_gain_ratio) {
                Some("role "@ + name + " auto min_gain_ratio must be in [0, 1)"@)
            } else {
                None
            }
        },
    }
}

/// The input of a list of inputs at a position, if there is one.
pub open spec fn input_at(inputs: Seq<ObjectId>, i: int) -> Option<ObjectId> {
    if 0 <= i < inputs.len() {
        Some(inputs[i])
    } else {
        None
    }
}

/// Offsets of records: the first record begins at the start, and each later than the one before.
pub open spec fn record_index(offsets: Seq<u64>) -> bool {
    &&& offsets.len() > 0
    &&& offsets[0] == 0
    &&& forall|i: int, j: int| 0 <= i < j < offsets.len() ==> offsets[i] < offsets[j]
}

/// The input to partition must be explicit, and the same for every implementation.
pub open spec fn partition_error(role: LogicalRoleModel, policy: AutoShardModel) -> Option<Seq<char>> {
    let input = policy.partition.position() as int;
    let expected = input_at(role.implementations[0].task.inputs, input);
    if expected is None {
        Some(
            "role "@ + role.name + " auto partition input "@ + crate::text::decimal(input as nat)
                + " is not an explicit TaskTemplate input"@,
        )
    } else if exists|i: int|
        0 <= i < role.implementations.len() && input_at(
            (#[trigger] role.implementations[i]).task.inputs,
            input,
        ) != expected {
        Some(
            "role "@ + role.name + " auto partition input "@ + crate::text::decimal(input as nat)
                + " must reference the same Object across implementations"@,
        )
    } else if policy.partition matches PartitionModel::Records { offsets, .. } && !record_index(offsets) {
        Some("role "@ + role.name + " record offsets must start at 0 and be strictly increasing"@)
    } else {
        None
    }
}

/// What is wrong with the reduction of a role. Reducers run in place of each other and in any
/// grouping, on what the shards put out alone.
pub open spec fn reduction_error(role: LogicalRoleModel, reduction: ReductionModel) -> Option<Seq<char>> {
    let prefix = "role "@ + role.name;
    if role.shards.single() {
        Some(prefix + " declares a reduction but is not sharded"@)
    } else if crate::text::blank(reduction.name) {
        Some(prefix + " has a reduction with an empty name"@)
    } else if !(reduction.task.effects is Pure) {
        Some(prefix + " reduction requires Pure effect semantics"@)
    } else if reduction.task.inputs.len() > 0 {
        Some(prefix + " reduction cannot declare static inputs"@)
    } else if reduction.max_fan_in < 2 {
        Some(prefix + " reduction max_fan_in must be at least 2"@)
    } else if !reduction.locality_rtt_ms.finite() || reduction.locality_rtt_ms.less(
        Binary64 { bits: 0 },
    ) {
        Some(prefix + " reduction locality_rtt_ms must be finite and non-negative"@)
    } else {
        None
    }
}

/// One of the first `k` implementations has the name.
pub open spec fn implementation_named_before(
    implementations: Seq<ImplementationModel>,
    k: int,
    name: Seq<char>,
) -> bool {
    exists|i: int| 0 <= i < k && (#[trigger] implementations[i]).name == name
}

/// What is wrong with the names of the implementations from `i` on.
pub open spec fn implementation_error(role: LogicalRoleModel, i: int) -> Option<Seq<char>>
    decreases role.implementations.len() - i,
{
    if i < 0 || i >= role.implementations.len() {
        None
    } else if crate::text::blank(role.implementations[i].name) {
        Some("role "@ + role.name + " has an implementation with an empty name"@)
    } else if implementation_named_before(role.implementations, i, role.implementations[i].name) {
        Some(
            "role "@ + role.name + " has duplicate implementation "@ + role.implementations[i].name,
        )
    } else {
        implementation_error(role, i + 1)
    }
}

/// The first thing wrong with a logical role.
pub open spec fn role_error(role: LogicalRoleModel) -> Option<Seq<char>> {
    if policy_error(role.name, role.shards) is Some {
        policy_error(role.name, role.shards)
    } else if role.implementations.len() == 0 {
        Some("role "@ + role.name + " has no implementations"@)
    } else if role.shards.automatic() is Some && partition_error(
        role,
        role.shards.automatic().unwrap(),
    ) is Some {
        partition_error(role, role.shards.automatic().unwrap())
    } else if role.reduction is Some && reduction_error(role, role.reduction.unwrap()) is Some {
        reduction_error(role, role.reduction.unwrap())
    } else {
        implementation_error(role, 0)
    }
}

/// The first thing wrong with the roles from `i` on.
pub open spec fn roles_error(roles: Seq<LogicalRoleModel>, i: int) -> Option<Seq<char>>
    decreases roles.len() - i,
{
    if i < 0 || i >= roles.len() {
        None
    } else if role_error(roles[i]) is Some {
        role_error(roles[i])
    } else {
        roles_error(roles, i + 1)
    }
}

/// The first thing wrong with a logical job.
pub open spec fn logical_error(job: LogicalJobModel) -> Option<Seq<char>> {
    if crate::role_graph::graph_error(logical_graph(job.roles), job.outputs) is Some {
        crate::role_graph::graph_error(logical_graph(job.roles), job.outputs)
    } else {
        roles_error(job.roles, 0)
    }
}

/// The object that the shards of a role are cut from, at a given position of its inputs.
pub open spec fn partitioned_object(role: LogicalRoleModel, input: usize) -> Option<ObjectId> {
    if role.implementations.len() == 0 {
        None
    } else {
        input_at(role.implementations[0].task.inputs, input as int)
    }
}

/// A role that is not cut into records, or the records of an object that is published and ends where
/// the offsets do.
pub open spec fn records_match(role: LogicalRoleModel, objects: Map<u128, ObjectModel>) -> bool {
    role.shards matches ShardPolicyModel::Auto(policy) ==> (
    policy.partition matches PartitionModel::Records { input, offsets } ==> (partitioned_object(
        role,
        input,
    ) matches Some(id) && objects.contains_key(id.0) && offsets.len() > 0 && offsets.last()
        == objects[id.0].size_bytes))
}

/// What is wrong with the records of the roles from `i` on, given the objects that are published.
pub open spec fn records_error(
    roles: Seq<LogicalRoleModel>,
    objects: Map<u128, ObjectModel>,
    i: int,
) -> Option<Seq<char>>
    decreases roles.len() - i,
{
    if i < 0 || i >= roles.len() {
        None
    } else if !records_match(roles[i], objects) {
        Some("role "@ + roles[i].name + " record offsets must end at the size of a published Object"@)
    } else {
        records_error(roles, objects, i + 1)
    }
}

/// The first thing wrong with a logical job, given the objects that are published.
pub open spec fn submission_error(job: LogicalJobModel, objects: Map<u128, ObjectModel>) -> Option<
    Seq<char>,
> {
    if logical_error(job) is Some {
        logical_error(job)
    } else {
        records_error(job.roles, objects, 0)
    }
}

/// The first thing wrong with a cooperative job.
pub open spec fn cooperative_error(job: CooperativeJobModel) -> Option<Seq<char>> {
    crate::role_graph::graph_error(cooperative_graph(job.roles), job.outputs)
}

fn check_policy(name: &str, shards: &ShardPolicy) -> (r: Result<(), String>)
    ensures
        crate::role_graph::plain_error(r) == policy_error(name@, shards@),
{
    match shards {
        ShardPolicy::Fixed(count) => {
            if *count == 0 {
                return Err(concat3("role ", name, " must request at least one shard"));
            }
        },
        ShardPolicy::Policy(ShardPolicySpec::Auto(policy)) => {
            let nil = Binary64::from_bits(0);
            if policy.max_shards == 0 || policy.max_shards > MAX_AUTO_SHARDS {
                return Err(
                    concat4(
                        "role ",
                        name,
                        " auto max_shards must be between 1 and ",
                        decimal_text(MAX_AUTO_SHARDS as u64).as_str(),
                    ),
                );
            }
            if !policy.per_shard_overhead_ms.is_finite() || policy.per_shard_overhead_ms.lt(nil) {
                return Err(
                    concat3(
                        "role ",
                        name,
                        " auto per_shard_overhead_ms must be finite and non-negative",
                    ),
                );
            }
            if !policy.min_gain_ratio.is_finite() || policy.min_gain_ratio.lt(nil)
                || Binary64::from_u64(1).le(policy.min_gain_ratio) {
                return Err(concat3("role ", name, " auto min_gain_ratio must be in [0, 1)"));
            }
        },
    }
    Ok(())
}

/// The item of a list at a position, if there is one.
pub fn object_at(inputs: &Vec<ObjectId>, i: usize) -> (r: Option<ObjectId>)
    ensures
        r == input_at(inputs@, i as int),
{
    if i < inputs.len() {
        Some(inputs[i])
    } else {
        None
    }
}

/// Whether offsets are those of records.
pub fn is_record_index(offsets: &Vec<u64>) -> (r: bool)
    ensures
        r == record_index(offsets@),
{
    if offsets.len() == 0 || offsets[0] != 0 {
        return false;
    }
    let mut i: usize = 1;
    while i < offsets.len()
        invariant
            1 <= i <= offsets@.len(),
            forall|a: int, b: int| 0 <= a < b < i ==> offsets@[a] < offsets@[b],
        decreases offsets@.len() - i,
    {
        if offsets[i - 1] >= offsets[i] {
            assert(!(offsets@[i - 1] < offsets@[i as int]));
            return false;
        }
        i = i + 1;
    }
    true
}

fn check_partition(role: &LogicalRoleSpec, policy: &AutoShardPolicy) -> (r: Result<(), String>)
    requires
        role@.implementations.len() > 0,
    ensures
        crate::role_graph::plain_error(r) == partition_error(role@, policy@),
{
    let input: usize = policy.partition.input();
    let ghost model = role@.implementations;
    assert(model[0] == role.implementations@[0]@);
    let expected = match object_at(&role.implementations[0].task.inputs, input) {
        Some(expected) => expected,
        None => {
            return Err(
                concat5(
                    "role ",
                    role.name.as_str(),
                    " auto partition input ",
                    decimal_text(input as u64).as_str(),
                    " is not an explicit TaskTemplate input",
                ),
            );
        },
    };
    let mut i: usize = 0;
    while i < role.implementations.len()
        invariant
            i <= role.implementations@.len(),
            model == role@.implementations,
            forall|j: int|
                0 <= j < i ==> input_at((#[trigger] model[j]).task.inputs, input as int) == Some(expected),
            input == policy@.partition.position(),
            Some(expected) == input_at(model[0].task.inputs, input as int),
        decreases role.implementations@.len() - i,
    {
        assert(model[i as int] == role.implementations@[i as int]@);
        let same = match object_at(&role.implementations[i].task.inputs, input) {
            Some(found) => found == expected,
            None => false,
        };
        if !same {
            assert(input_at(model[i as int].task.inputs, input as int) != Some(expected));
            return Err(
                concat5(
                    "role ",
                    role.name.as_str(),
                    " auto partition input ",
                    decimal_text(input as u64).as_str(),
                    " must reference the same Object across implementations",
                ),
            );
        }
        i = i + 1;
    }
    if let ShardPartitionSpec::Records { offsets, .. } = &policy.partition {
        if !is_record_index(offsets) {
            return Err(
                concat3(
                    "role ",
                    role.name.as_str(),
                    " record offsets must start at 0 and be strictly increasing",
                ),
            );
        }
    }
    Ok(())
}

fn check_implementations(role: &LogicalRoleSpec) -> (r: Result<(), String>)
    ensures
        crate::role_graph::plain_error(r) == implementation_error(role@, 0),
{
    let ghost model = role@.implementations;
    let mut i: usize = 0;
    while i < role.implementations.len()
        invariant
            i <= role.implementations@.len(),
            model == role@.implementations,
            implementation_error(role@, 0) == implementation_error(role@, i as int),
        decreases role.implementations@.len() - i,
    {
        let name = role.implementations[i].name.as_str();
        assert(model[i as int].name == name@);
        if is_blank(name) {
            return Err(
                concat3("role ", role.name.as_str(), " has an implementation with an empty name"),
            );
        }
        if has_implementation_before(&role.implementations, i, name) {
            return Err(
                concat4("role ", role.name.as_str(), " has duplicate implementation ", name),
            );
        }
        i = i + 1;
    }
    Ok(())
}

fn has_implementation_before(implementations: &Vec<RoleImplementation>, k: usize, name: &str) -> (r: bool)
    requires
        k <= implementations@.len(),
    ensures
        r == implementation_named_before(crate::text::views(implementations@), k as int, name@),
{
    let ghost model = crate::text::views(implementations@);
    let mut i: usize = 0;
    while i < k
        invariant
            i <= k <= implementations@.len(),
            model == crate::text::views(implementations@),
            forall|j: int| 0 <= j < i ==> (#[trigger] model[j]).name != name@,
        decreases k - i,
    {
        assert(model[i as int].name == implementations@[i as int].name@);
        if same_text(implementations[i].name.as_str(), name) {
            return true;
        }
        i = i + 1;
    }
    false
}

fn check_reduction(role: &LogicalRoleSpec, reduction: &RoleReductionSpec) -> (r: Result<(), String>)
    ensures
        crate::role_graph::plain_error(r) == reduction_error(role@, reduction@),
{
    let prefix = concat2("role ", role.name.as_str());
    if role.shards.is_single() {
        return Err(concat2(prefix.as_str(), " declares a reduction but is not sharded"));
    }
    if is_blank(reduction.name.as_str()) {
        return Err(concat2(prefix.as_str(), " has a reduction with an empty name"));
    }
    if !reduction.task.effects.is_pure() {
        return Err(concat2(prefix.as_str(), " reduction requires Pure effect semantics"));
    }
    if reduction.task.inputs.len() > 0 {
        return Err(concat2(prefix.as_str(), " reduction cannot declare static inputs"));
    }
    if reduction.max_fan_in < 2 {
        return Err(concat2(prefix.as_str(), " reduction max_fan_in must be at least 2"));
    }
    if !reduction.locality_rtt_ms.is_finite() || reduction.locality_rtt_ms.lt(Binary64::from_bits(0)) {
        return Err(
            concat2(prefix.as_str(), " reduction locality_rtt_ms must be finite and non-negative"),
        );
    }
    Ok(())
}

fn check_role(role: &LogicalRoleSpec) -> (r: Result<(), String>)
    ensures
        crate::role_graph::plain_error(r) == role_error(role@),
{
    if let Err(message) = check_policy(role.name.as_str(), &role.shards) {
        return Err(message);
    }
    if role.implementations.len() == 0 {
        return Err(concat3("role ", role.name.as_str(), " has no implementations"));
    }
    if let Some(policy) = role.shards.auto() {
        if let Err(message) = check_partition(role, policy) {
            return Err(message);
        }
    }
    if let Some(reduction) = &role.reduction {
        if let Err(message) = check_reduction(role, reduction) {
            return Err(message);
        }
    }
    check_implementations(role)
}

fn check_records(role: &LogicalRoleSpec, objects: &BTreeMap<u128, ObjectMetadata>) -> (r: bool)
    ensures
        r == records_match(role@, crate::collections::modeled(objects@)),
{
    match &role.shards {
        ShardPolicy::Policy(ShardPolicySpec::Auto(policy)) => match &policy.partition {
            ShardPartitionSpec::Records { input, offsets } => {
                if role.implementations.len() == 0 || offsets.len() == 0 {
                    return false;
                }
                let inputs = &role.implementations[0].task.inputs;
                assert(role@.implementations[0] == role.implementations@[0]@);
                if *input >= inputs.len() {
                    return false;
                }
                match objects.get(&inputs[*input].0) {
                    Some(object) => offsets[offsets.len() - 1] == object.size_bytes,
                    None => false,
                }
            },
            ShardPartitionSpec::ByteRange { .. } => true,
        },
        ShardPolicy::Fixed(_) => true,
    }
}

/// Checks the roles of a logical job that are cut into records against the objects that are
/// published: each object has to be there, and to end where the offsets do.
pub fn validate_record_partitions(spec: &LogicalJobSpec, objects: &BTreeMap<u128, ObjectMetadata>) -> (r:
    Result<(), PlanError>)
    ensures
        r is Ok <==> forall|i: int|
            0 <= i < spec@.roles.len() ==> records_match(
                #[trigger] spec@.roles[i],
                crate::collections::modeled(objects@),
            ),
        match r {
            Ok(_) => records_error(spec@.roles, crate::collections::modeled(objects@), 0) is None,
            Err(error) => records_error(spec@.roles, crate::collections::modeled(objects@), 0) matches Some(
                message,
            ) && error@ == PlanErrorModel::InvalidLogicalJob(message),
        },
{
    let ghost model = crate::collections::modeled(objects@);
    let mut i: usize = 0;
    while i < spec.roles.len()
        invariant
            i <= spec.roles@.len(),
            model == crate::collections::modeled(objects@),
            records_error(spec@.roles, model, 0) == records_error(spec@.roles, model, i as int),
            forall|j: int| 0 <= j < i ==> records_match(#[trigger] spec@.roles[j], model),
        decreases spec.roles@.len() - i,
    {
        assert(spec@.roles[i as int] == spec.roles@[i as int]@);
        if !check_records(&spec.roles[i], objects) {
            return Err(
                PlanError::InvalidLogicalJob(
                    concat3(
                        "role ",
                        spec.roles[i].name.as_str(),
                        " record offsets must end at the size of a published Object",
                    ),
                ),
            );
        }
        i = i + 1;
    }
    Ok(())
}

/// Checks a logical job by itself, and then against the objects that are published.
pub fn validate_logical_job(spec: &LogicalJobSpec, objects: &BTreeMap<u128, ObjectMetadata>) -> (r: Result<
    (),
    PlanError,
>)
    ensures
        match r {
            Ok(_) => submission_error(spec@, crate::collections::modeled(objects@)) is None,
            Err(error) => submission_error(spec@, crate::collections::modeled(objects@)) matches Some(
                message,
            ) && error@ == PlanErrorModel::InvalidLogicalJob(message),
        },
{
    match check_logical_job(spec) {
        Err(error) => Err(error),
        Ok(_) => validate_record_partitions(spec, objects),
    }
}

/// Checks a logical job by itself.
fn check_logical_job(spec: &LogicalJobSpec) -> (r: Result<(), PlanError>)
    ensures
        match r {
            Ok(_) => logical_error(spec@) is None,
            Err(error) => logical_error(spec@) matches Some(message) && error@
                == PlanErrorModel::InvalidLogicalJob(message),
        },
{
    let mut nodes: Vec<RoleNode> = Vec::new();
    let mut i: usize = 0;
    while i < spec.roles.len()
        invariant
            i <= spec.roles@.len(),
            nodes@.len() == i,
            forall|j: int|
                0 <= j < i ==> (#[trigger] nodes@[j]).name@ == spec.roles@[j].name@
                    && nodes@[j].depends_on@ == spec.roles@[j].depends_on@,
        decreases spec.roles@.len() - i,
    {
        nodes.push(RoleNode { name: &spec.roles[i].name, depends_on: &spec.roles[i].depends_on });
        i = i + 1;
    }
    assert(crate::text::views(nodes@) =~= logical_graph(spec@.roles)) by {
        assert forall|j: int| 0 <= j < nodes@.len() implies crate::text::views(nodes@)[j]
            == logical_graph(spec@.roles)[j] by {
            assert(nodes@[j].name@ == spec.roles@[j].name@);
            assert(spec@.roles[j] == spec.roles@[j]@);
        }
    }
    if let Err(message) = validate_role_graph(&nodes, &spec.outputs) {
        return Err(PlanError::InvalidLogicalJob(message));
    }
    let mut k: usize = 0;
    while k < spec.roles.len()
        invariant
            k <= spec.roles@.len(),
            crate::role_graph::graph_error(logical_graph(spec@.roles), spec@.outputs) is None,
            roles_error(spec@.roles, 0) == roles_error(spec@.roles, k as int),
        decreases spec.roles@.len() - k,
    {
        assert(spec@.roles[k as int] == spec.roles@[k as int]@);
        if let Err(message) = check_role(&spec.roles[k]) {
            return Err(PlanError::InvalidLogicalJob(message));
        }
        k = k + 1;
    }
    Ok(())
}

/// Checks a cooperative job.
pub fn validate_cooperative_job(job: &CooperativeJobSpec) -> (r: Result<(), String>)
    ensures
        crate::role_graph::plain_error(r) == cooperative_error(job@),
{
    let mut nodes: Vec<RoleNode> = Vec::new();
    let mut i: usize = 0;
    while i < job.roles.len()
        invariant
            i <= job.roles@.len(),
            nodes@.len() == i,
            forall|j: int|
                0 <= j < i ==> (#[trigger] nodes@[j]).name@ == job.roles@[j].name@
                    && nodes@[j].depends_on@ == job.roles@[j].depends_on@,
        decreases job.roles@.len() - i,
    {
        nodes.push(RoleNode { name: &job.roles[i].name, depends_on: &job.roles[i].depends_on });
        i = i + 1;
    }
    assert(crate::text::views(nodes@) =~= cooperative_graph(job@.roles)) by {
        assert forall|j: int| 0 <= j < nodes@.len() implies crate::text::views(nodes@)[j]
            == cooperative_graph(job@.roles)[j] by {
            assert(nodes@[j].name@ == job.roles@[j].name@);
            assert(job@.roles[j] == job.roles@[j]@);
        }
    }
    validate_role_graph(&nodes, &job.outputs)
}

/// Every implementation takes the object at the position that the policy partitions.
pub open spec fn partitions_object(
    role: LogicalRoleModel,
    policy: AutoShardModel,
    object: ObjectId,
) -> bool {
    forall|i: int|
        0 <= i < role.implementations.len() ==> #[trigger] input_at(
            role.implementations[i].task.inputs,
            policy.partition.position() as int,
        ) == Some(object)
}

/// What a valid role is, said at once.
pub open spec fn sound_role(role: LogicalRoleModel) -> bool {
    &&& role.implementations.len() > 0
    &&& forall|i: int|
        0 <= i < role.implementations.len() ==> !crate::text::blank((#[trigger] role.implementations[i]).name)
    &&& forall|i: int, j: int|
        0 <= i < j < role.implementations.len() ==> (#[trigger] role.implementations[i]).name != (
        #[trigger] role.implementations[j]).name
    &&& role.reduction matches Some(reduction) ==> sound_reduction(role, reduction)
    &&& match role.shards {
        ShardPolicyModel::Fixed(count) => count > 0,
        ShardPolicyModel::Auto(policy) => {
            let nil = Binary64 { bits: 0 };
            &&& 0 < policy.max_shards <= MAX_AUTO_SHARDS
            &&& policy.per_shard_overhead_ms.finite() && nil.at_most(policy.per_shard_overhead_ms)
            &&& policy.min_gain_ratio.finite() && nil.at_most(policy.min_gain_ratio)
            &&& policy.min_gain_ratio.less(Binary64::nearest_to(1))
            &&& exists|object: ObjectId| partitions_object(role, policy, object)
            &&& policy.partition matches PartitionModel::Records { offsets, .. } ==> record_index(offsets)
        },
    }
}

/// What a valid reduction is.
pub open spec fn sound_reduction(role: LogicalRoleModel, reduction: ReductionModel) -> bool {
    &&& !role.shards.single()
    &&& !crate::text::blank(reduction.name)
    &&& reduction.task.effects is Pure
    &&& reduction.task.inputs.len() == 0
    &&& reduction.max_fan_in >= 2
    &&& reduction.locality_rtt_ms.finite()
    &&& !reduction.locality_rtt_ms.less(Binary64 { bits: 0 })
}

proof fn lemma_implementation_error(role: LogicalRoleModel, i: int)
    requires
        0 <= i <= role.implementations.len(),
    ensures
        implementation_error(role, i) is None <==> forall|k: int|
            i <= k < role.implementations.len() ==> !crate::text::blank(
                (#[trigger] role.implementations[k]).name,
            ) && !implementation_named_before(role.implementations, k, role.implementations[k].name),
    decreases role.implementations.len() - i,
{
    if i < role.implementations.len() {
        lemma_implementation_error(role, i + 1);
    }
}

proof fn lemma_roles_error(roles: Seq<LogicalRoleModel>, i: int)
    requires
        0 <= i <= roles.len(),
    ensures
        roles_error(roles, i) is None <==> forall|k: int|
            i <= k < roles.len() ==> role_error(#[trigger] roles[k]) is None,
    decreases roles.len() - i,
{
    if i < roles.len() {
        lemma_roles_error(roles, i + 1);
    }
}

proof fn lemma_role_error(role: LogicalRoleModel)
    ensures
        role_error(role) is None <==> sound_role(role),
{
    let implementations = role.implementations;
    lemma_implementation_error(role, 0);
    Binary64::lemma_one();
    if implementation_error(role, 0) is None {
        assert forall|i: int, j: int| 0 <= i < j < implementations.len() implies (
        #[trigger] implementations[i]).name != (#[trigger] implementations[j]).name by {
            assert(!implementation_named_before(implementations, j, implementations[j].name));
        }
    }
    if let Some(policy) = role.shards.automatic() {
        if implementations.len() > 0 {
            let input = policy.partition.position() as int;
            let expected = input_at(implementations[0].task.inputs, input);
            if partition_error(role, policy) is None {
                let object = expected.unwrap();
                assert(partitions_object(role, policy, object));
            }
        }
    }
}

/// A logical job is accepted exactly if its graph is well formed and each of its roles is sound.
pub proof fn law_accepted_logical_jobs(job: LogicalJobModel)
    ensures
        logical_error(job) is None <==> crate::role_graph::well_formed(
            logical_graph(job.roles),
            job.outputs,
        ) && forall|i: int| 0 <= i < job.roles.len() ==> sound_role(#[trigger] job.roles[i]),
{
    crate::role_graph::law_accepted_graphs_are_well_formed(logical_graph(job.roles), job.outputs);
    lemma_roles_error(job.roles, 0);
    assert forall|i: int| 0 <= i < job.roles.len() implies (role_error(#[trigger] job.roles[i]) is None
        <==> sound_role(job.roles[i])) by {
        lemma_role_error(job.roles[i]);
    }
}

proof fn lemma_records_error(roles: Seq<LogicalRoleModel>, objects: Map<u128, ObjectModel>, i: int)
    requires
        0 <= i <= roles.len(),
    ensures
        records_error(roles, objects, i) is None <==> forall|k: int|
            i <= k < roles.len() ==> records_match(#[trigger] roles[k], objects),
    decreases roles.len() - i,
{
    if i < roles.len() {
        lemma_records_error(roles, objects, i + 1);
        if records_error(roles, objects, i) is None {
            assert forall|k: int| i <= k < roles.len() implies records_match(#[trigger] roles[k], objects) by {
                if k > i {
                    assert(records_error(roles, objects, i + 1) is None);
                }
            }
        } else if records_match(roles[i], objects) {
            assert(records_error(roles, objects, i + 1) is Some);
        }
    }
}

/// A logical job is fit to be run exactly if its graph is well formed, each of its roles is sound, and
/// each object that is cut into records is published and ends where its records do.
pub proof fn law_accepted_submissions(job: LogicalJobModel, objects: Map<u128, ObjectModel>)
    ensures
        submission_error(job, objects) is None <==> crate::role_graph::well_formed(
            logical_graph(job.roles),
            job.outputs,
        ) && (forall|i: int| 0 <= i < job.roles.len() ==> sound_role(#[trigger] job.roles[i])) && (forall|
            i: int,
        |
            0 <= i < job.roles.len() ==> records_match(#[trigger] job.roles[i], objects)),
{
    law_accepted_logical_jobs(job);
    lemma_records_error(job.roles, objects, 0);
}

/// How many of the first `k` inputs of a stage are the output of the stage before.
pub open spec fn previous_outputs(inputs: Seq<PipelineInput>, k: nat) -> nat
    decreases k,
{
    if k == 0 {
        0
    } else if inputs[k - 1] is PreviousOutput {
        previous_outputs(inputs, (k - 1) as nat) + 1
    } else {
        previous_outputs(inputs, (k - 1) as nat)
    }
}

/// The first external input from `j` on that the task does not have.
pub open spec fn dangling_input(inputs: Seq<PipelineInput>, count: nat, j: int) -> Option<usize>
    decreases inputs.len() - j,
{
    if j < 0 || j >= inputs.len() {
        None
    } else {
        match inputs[j] {
            PipelineInput::External { index } if index >= count => Some(index),
            _ => dangling_input(inputs, count, j + 1),
        }
    }
}

/// What is wrong with stage `i` of a pipeline.
pub open spec fn stage_error(stage: StageModel, i: nat, input_count: nat) -> Option<Seq<char>> {
    let prefix = "pipeline stage "@ + crate::text::decimal(i);
    let previous = previous_outputs(stage.inputs, stage.inputs.len());
    if !crate::text::begins_with(stage.artifact, "builtin:"@) {
        Some(prefix + " uses unsupported artifact family "@ + stage.artifact)
    } else if stage.entrypoint != "run"@ {
        Some(prefix + " requires entrypoint run"@)
    } else if (i == 0 && previous != 0) || (i > 0 && previous != 1) {
        Some(prefix + " has invalid previous-output bindings"@)
    } else {
        match dangling_input(stage.inputs, input_count, 0) {
            Some(index) => Some(
                prefix + " references external input index "@ + crate::text::decimal(index as nat)
                    + ", but the task has "@ + crate::text::decimal(input_count) + " inputs"@,
            ),
            None => None,
        }
    }
}

/// What is wrong with the stages of a pipeline from `i` on.
pub open spec fn stages_error(stages: Seq<StageModel>, i: int, input_count: nat) -> Option<Seq<char>>
    decreases stages.len() - i,
{
    if i < 0 || i >= stages.len() {
        None
    } else if stage_error(stages[i], i as nat, input_count) is Some {
        stage_error(stages[i], i as nat, input_count)
    } else {
        stages_error(stages, i + 1, input_count)
    }
}

/// The first thing wrong with a task. An ordinary task is always valid; a pipeline has its own form.
pub open spec fn task_error(task: TaskModel) -> Option<Seq<char>> {
    match task.pipeline {
        None => None,
        Some(pipeline) => if task.artifact != "plurifold:pipeline"@ || task.entrypoint != "run"@ {
            Some("pipeline tasks require artifact plurifold:pipeline and entrypoint run"@)
        } else if !(task.effects is Pure) {
            Some("pipeline tasks currently require Pure effect semantics"@)
        } else if pipeline.stages.len() < 2 {
            Some("pipeline tasks require at least two stages"@)
        } else {
            stages_error(pipeline.stages, 0, task.inputs.len())
        },
    }
}

fn check_stage(stage: &TaskPipelineStage, i: usize, input_count: usize) -> (r: Result<(), String>)
    ensures
        crate::role_graph::plain_error(r) == stage_error(stage@, i as nat, input_count as nat),
{
    let prefix = concat2("pipeline stage ", decimal_text(i as u64).as_str());
    if !has_prefix(stage.artifact.as_str(), "builtin:") {
        return Err(
            concat3(
                prefix.as_str(),
                " uses unsupported artifact family ",
                stage.artifact.as_str(),
            ),
        );
    }
    if !same_text(stage.entrypoint.as_str(), "run") {
        return Err(concat2(prefix.as_str(), " requires entrypoint run"));
    }
    let mut previous: usize = 0;
    let mut k: usize = 0;
    while k < stage.inputs.len()
        invariant
            previous <= k <= stage.inputs@.len(),
            previous == previous_outputs(stage.inputs@, k as nat),
        decreases stage.inputs@.len() - k,
    {
        match stage.inputs[k] {
            PipelineInput::PreviousOutput => {
                previous = previous + 1;
            },
            PipelineInput::External { .. } => {},
        }
        k = k + 1;
    }
    if (i == 0 && previous != 0) || (i > 0 && previous != 1) {
        return Err(concat2(prefix.as_str(), " has invalid previous-output bindings"));
    }
    let mut j: usize = 0;
    while j < stage.inputs.len()
        invariant
            j <= stage.inputs@.len(),
            crate::text::begins_with(stage@.artifact, "builtin:"@),
            stage@.entrypoint == "run"@,
            previous == previous_outputs(stage.inputs@, stage.inputs@.len()),
            !((i == 0 && previous != 0) || (i > 0 && previous != 1)),
            prefix@ == "pipeline stage "@ + crate::text::decimal(i as nat),
            dangling_input(stage.inputs@, input_count as nat, 0) == dangling_input(
                stage.inputs@,
                input_count as nat,
                j as int,
            ),
        decreases stage.inputs@.len() - j,
    {
        if let PipelineInput::External { index } = stage.inputs[j] {
            if index >= input_count {
                let reference = concat3(
                    prefix.as_str(),
                    " references external input index ",
                    decimal_text(index as u64).as_str(),
                );
                return Err(
                    concat4(
                        reference.as_str(),
                        ", but the task has ",
                        decimal_text(input_count as u64).as_str(),
                        " inputs",
                    ),
                );
            }
        }
        j = j + 1;
    }
    Ok(())
}

/// Checks a task.
pub fn validate_task(task: &TaskSpec) -> (r: Result<(), String>)
    ensures
        crate::role_graph::plain_error(r) == task_error(task@),
{
    let pipeline = match &task.pipeline {
        None => {
            return Ok(());
        },
        Some(pipeline) => pipeline,
    };
    if !same_text(task.artifact.as_str(), "plurifold:pipeline") || !same_text(
        task.entrypoint.as_str(),
        "run",
    ) {
        return Err(
            "pipeline tasks require artifact plurifold:pipeline and entrypoint run".to_owned(),
        );
    }
    if !task.effects.is_pure() {
        return Err("pipeline tasks currently require Pure effect semantics".to_owned());
    }
    if pipeline.stages.len() < 2 {
        return Err("pipeline tasks require at least two stages".to_owned());
    }
    let ghost stages = pipeline@.stages;
    let mut i: usize = 0;
    while i < pipeline.stages.len()
        invariant
            i <= pipeline.stages@.len(),
            stages == pipeline@.stages,
            task@.pipeline == Some(pipeline@),
            task_error(task@) == stages_error(stages, i as int, task@.inputs.len()),
        decreases pipeline.stages@.len() - i,
    {
        assert(stages[i as int] == pipeline.stages@[i as int]@);
        if let Err(message) = check_stage(&pipeline.stages[i], i, task.inputs.len()) {
            return Err(message);
        }
        i = i + 1;
    }
    Ok(())
}

}
