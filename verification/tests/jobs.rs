use std::collections::BTreeMap;

use plurifold::binary64::Binary64;
use plurifold::collections::NameSet;
use plurifold::fusion::{
    combine_accelerator, combine_architecture, combine_requirements, fused_implementation_choices,
    fused_pipeline_task, pipeline_external_bindings,
};
use plurifold::ids::{JobId, ObjectId, ResourceId, TaskId};
use plurifold::jobs::{
    default_role_shards, AutoShardPolicy, LogicalJobSpec, LogicalRoleSpec, RoleImplementation,
    ShardPartitionSpec, ShardPolicy, ShardPolicySpec,
};
use plurifold::objects::ObjectMetadata;
use plurifold::planner::plan;
use plurifold::resources::{
    AcceleratorKind, AcceleratorRequirement, Architecture, ResourceDescriptor,
    ResourceRequirements,
};
use plurifold::role_graph::{validate_role_graph, RoleNode};
use plurifold::scheduler::TopologyAwareScheduler;
use plurifold::shards::{partition_bounds, select_ready_shards, ShardPlanningContext};
use plurifold::tasks::{
    CostHint, EffectSemantics, PipelineInput, TaskPipeline, TaskPipelineStage,
    TaskShardPartition, TaskSpec, TaskTemplate,
};
use plurifold::topology::TopologySnapshot;
use plurifold::validation::{
    validate_logical_job, validate_record_partitions, validate_task, PlanError,
};

fn binary(x: f64) -> Binary64 {
    Binary64::from_bits(x.to_bits())
}

fn number(x: Binary64) -> f64 {
    f64::from_bits(x.to_bits())
}

fn template(inputs: Vec<ObjectId>) -> TaskTemplate {
    TaskTemplate {
        artifact: "builtin:identity".into(),
        entrypoint: "run".into(),
        arguments: vec![],
        inputs,
        requirements: ResourceRequirements::default(),
        effects: EffectSemantics::Pure,
        cost: CostHint { compute_ms_on_reference: binary(100.0), output_bytes: 10 },
    }
}

fn role(name: &str, depends_on: &[&str]) -> LogicalRoleSpec {
    LogicalRoleSpec {
        reduction: None,
        name: name.into(),
        implementations: vec![RoleImplementation { name: "plain".into(), task: template(vec![]) }],
        depends_on: depends_on.iter().map(|name| (*name).to_owned()).collect(),
        shards: default_role_shards(),
    }
}

fn job(roles: Vec<LogicalRoleSpec>, outputs: &[&str]) -> LogicalJobSpec {
    LogicalJobSpec {
        id: JobId::new(),
        roles,
        outputs: outputs.iter().map(|name| (*name).to_owned()).collect(),
    }
}

fn fault(job: LogicalJobSpec) -> String {
    let error = validate_logical_job(&job, &BTreeMap::new()).unwrap_err();
    assert!(matches!(error, PlanError::InvalidLogicalJob(_)));
    error.message()
}

#[test]
fn malformed_role_graphs_are_described() {
    assert_eq!(fault(job(vec![], &[])), "invalid logical job: at least one role is required");
    assert_eq!(
        fault(job(vec![role("a", &[])], &[])),
        "invalid logical job: at least one output role is required"
    );
    assert_eq!(
        fault(job(vec![role(" ", &[])], &["a"])),
        "invalid logical job: role names cannot be empty"
    );
    assert_eq!(
        fault(job(vec![role("a", &[]), role("a", &[])], &["a"])),
        "invalid logical job: duplicate role a"
    );
    assert_eq!(
        fault(job(vec![role("a", &["b"])], &["a"])),
        "invalid logical job: role a depends on unknown role b"
    );
    assert_eq!(
        fault(job(vec![role("a", &[]), role("b", &["a", "a"])], &["b"])),
        "invalid logical job: role b lists dependency a more than once"
    );
    assert_eq!(
        fault(job(vec![role("a", &[])], &["z"])),
        "invalid logical job: unknown output role z"
    );
    assert_eq!(
        fault(job(vec![role("a", &[])], &["a", "a"])),
        "invalid logical job: output role a is listed more than once"
    );
    assert_eq!(
        fault(job(vec![role("a", &["a"])], &["a"])),
        "invalid logical job: role dependency graph contains a cycle"
    );
}

#[test]
fn accepted_graphs_have_no_cycle() {
    let names = |list: &[&str]| -> Vec<String> {
        list.iter().map(|name| (*name).to_owned()).collect()
    };
    let check = |graph: &[(&str, &[&str])]| {
        let owned: Vec<(String, Vec<String>)> =
            graph.iter().map(|(name, on)| ((*name).to_owned(), names(on))).collect();
        let nodes = owned.iter().map(|(name, depends_on)| RoleNode { name, depends_on }).collect();
        validate_role_graph(&nodes, &names(&["d"]))
    };
    assert_eq!(check(&[("d", &["b", "c"]), ("b", &["a"]), ("c", &["a"]), ("a", &[])]), Ok(()));
    assert_eq!(
        check(&[("d", &["b"]), ("b", &["c"]), ("c", &["b"])]),
        Err("role dependency graph contains a cycle".to_owned())
    );
}

fn automatic(policy: AutoShardPolicy) -> ShardPolicy {
    ShardPolicy::Policy(ShardPolicySpec::Auto(policy))
}

fn policy() -> AutoShardPolicy {
    AutoShardPolicy {
        max_shards: 4,
        partition: ShardPartitionSpec::ByteRange { input: 0 },
        per_shard_overhead_ms: binary(0.0),
        min_gain_ratio: binary(0.05),
    }
}

fn sharded(shards: ShardPolicy, inputs: Vec<ObjectId>) -> LogicalRoleSpec {
    LogicalRoleSpec {
        reduction: None,
        name: "map".into(),
        implementations: vec![RoleImplementation { name: "plain".into(), task: template(inputs) }],
        depends_on: vec![],
        shards,
    }
}

#[test]
fn shard_policies_are_checked() {
    let input = ObjectId::new();
    let faulty = |shards: ShardPolicy| fault(job(vec![sharded(shards, vec![input])], &["map"]));
    assert_eq!(
        faulty(ShardPolicy::Fixed(0)),
        "invalid logical job: role map must request at least one shard"
    );
    for max_shards in [0, 257] {
        assert_eq!(
            faulty(automatic(AutoShardPolicy { max_shards, ..policy() })),
            "invalid logical job: role map auto max_shards must be between 1 and 256"
        );
    }
    for overhead in [-1.0, f64::NAN, f64::INFINITY] {
        let wrong = AutoShardPolicy { per_shard_overhead_ms: binary(overhead), ..policy() };
        assert_eq!(
            faulty(automatic(wrong)),
            "invalid logical job: role map auto per_shard_overhead_ms must be finite and non-negative"
        );
    }
    for ratio in [-0.1, 1.0, f64::NAN] {
        let wrong = AutoShardPolicy { min_gain_ratio: binary(ratio), ..policy() };
        assert_eq!(
            faulty(automatic(wrong)),
            "invalid logical job: role map auto min_gain_ratio must be in [0, 1)"
        );
    }
    assert_eq!(
        fault(job(vec![sharded(automatic(policy()), vec![])], &["map"])),
        "invalid logical job: role map auto partition input 0 is not an explicit TaskTemplate input"
    );
    let mut mixed = sharded(automatic(policy()), vec![input]);
    mixed.implementations.push(RoleImplementation {
        name: "other".into(),
        task: template(vec![ObjectId::new()]),
    });
    assert_eq!(
        fault(job(vec![mixed], &["map"])),
        "invalid logical job: role map auto partition input 0 must reference the same Object across implementations"
    );
    assert_eq!(
        validate_logical_job(
            &job(vec![sharded(automatic(policy()), vec![input])], &["map"]),
            &BTreeMap::new()
        ),
        Ok(())
    );
}

#[test]
fn implementations_have_names_of_their_own() {
    let mut without = role("a", &[]);
    without.implementations = vec![];
    assert_eq!(
        fault(job(vec![without], &["a"])),
        "invalid logical job: role a has no implementations"
    );
    let mut unnamed = role("a", &[]);
    unnamed.implementations[0].name = "".into();
    assert_eq!(
        fault(job(vec![unnamed], &["a"])),
        "invalid logical job: role a has an implementation with an empty name"
    );
    let mut doubled = role("a", &[]);
    doubled.implementations.push(RoleImplementation { name: "plain".into(), task: template(vec![]) });
    assert_eq!(
        fault(job(vec![doubled], &["a"])),
        "invalid logical job: role a has duplicate implementation plain"
    );
}

#[test]
fn jobs_without_resources_cannot_be_planned() {
    let error = plan(
        &job(vec![role("a", &[])], &["a"]),
        &TopologyAwareScheduler::default(),
        &vec![],
        &BTreeMap::new(),
        &TopologySnapshot::default(),
    )
    .unwrap_err();
    assert_eq!(error, PlanError::NoFeasibleImplementation("a".into()));
    assert_eq!(
        error.message(),
        "role a has no feasible implementation on the current resources/topology"
    );
}

fn machine(id: ResourceId) -> ResourceDescriptor {
    ResourceDescriptor {
        id,
        epoch: 1,
        architecture: Architecture::X86_64,
        cpu_cores: 1,
        memory_bytes: 1 << 30,
        accelerators: vec![],
        features: NameSet::new(),
        performance_score: binary(1.0),
        queue_delay_ms: binary(0.0),
        startup_delay_ms: binary(0.0),
        failure_probability: binary(0.0),
    }
}

#[test]
fn plans_respect_dependencies() {
    let planned = plan(
        &job(vec![role("late", &["early"]), role("early", &[])], &["late"]),
        &TopologyAwareScheduler::default(),
        &vec![machine(ResourceId::new()), machine(ResourceId::new())],
        &BTreeMap::new(),
        &TopologySnapshot::default(),
    )
    .unwrap();
    let early = planned.roles.iter().find(|role| role.name == "early").unwrap();
    let late = planned.roles.iter().find(|role| role.name == "late").unwrap();
    assert_eq!(number(early.shards[0].placement.start_ms), 0.0);
    assert_eq!(number(early.shards[0].placement.finish_ms), 100.0);
    assert_eq!(number(late.shards[0].placement.start_ms), 100.0);
    assert_eq!(number(planned.estimated_makespan_ms), 200.0);
}

#[test]
fn parts_tile_the_whole() {
    for (total, count) in [(10u64, 3u32), (0, 4), (7, 7), (5, 8), (u64::MAX, 256)] {
        let mut position = 0;
        for index in 0..count {
            let (offset, length) = partition_bounds(total, index, count);
            assert_eq!(offset, position);
            assert!(length == total / count as u64 || length == total / count as u64 + 1);
            position += length;
        }
        assert_eq!(position, total);
    }
    assert_eq!(partition_bounds(10, 1, 3), (3, 3));
    assert_eq!(partition_bounds(10, 2, 3), (6, 4));
}

#[test]
fn automatic_shards_divide_output_and_add_overhead() {
    let input = ObjectId::new();
    let first = ResourceId::new();
    let second = ResourceId::new();
    let objects = BTreeMap::from([(
        input.0,
        ObjectMetadata {
            id: input,
            size_bytes: 3,
            digest: None,
            encoding: None,
            locations: vec![first, second],
            producer: None,
        },
    )]);
    let resources = vec![machine(first), machine(second)];
    let topology = TopologySnapshot::default();
    let scheduler = TopologyAwareScheduler::default();
    let context = ShardPlanningContext {
        scheduler: &scheduler,
        resources: &resources,
        objects: &objects,
        topology: &topology,
    };
    let work = sharded(
        automatic(AutoShardPolicy { per_shard_overhead_ms: binary(2.0), ..policy() }),
        vec![input],
    );
    let shards = select_ready_shards(&work, &vec![], &context).unwrap();
    assert_eq!(shards.len(), 2);
    assert_eq!(
        number(shards[0].task.cost.compute_ms_on_reference),
        100.0 * (1.0 / 3.0) + 2.0
    );
    assert_eq!(
        number(shards[1].task.cost.compute_ms_on_reference),
        100.0 * (2.0 / 3.0) + 2.0
    );
    assert_eq!(shards[0].task.cost.output_bytes, 3);
    assert_eq!(shards[1].task.cost.output_bytes, 7);
    assert_eq!(shards[0].index, 0);
    assert_eq!(shards[1].index, 1);
    let fixed = select_ready_shards(&sharded(ShardPolicy::Fixed(3), vec![input]), &vec![], &context)
        .unwrap();
    assert_eq!(fixed.len(), 3);
    assert_eq!(fixed[2].task.shard.unwrap().partition, None);
    assert_eq!(number(fixed[2].task.cost.compute_ms_on_reference), 100.0);
    assert_eq!(number(fixed[2].finish_ms()), 200.0);
}

#[test]
fn record_shards_have_whole_records() {
    let input = ObjectId::new();
    let first = ResourceId::new();
    let second = ResourceId::new();
    let object = |size_bytes: u64| {
        BTreeMap::from([(
            input.0,
            ObjectMetadata {
                id: input,
                size_bytes,
                digest: None,
                encoding: None,
                locations: vec![first, second],
                producer: None,
            },
        )])
    };
    let resources = vec![machine(first), machine(second)];
    let topology = TopologySnapshot::default();
    let scheduler = TopologyAwareScheduler::default();
    let records = AutoShardPolicy {
        max_shards: 2,
        partition: ShardPartitionSpec::Records { input: 0, offsets: vec![0, 5, 11, 18] },
        ..policy()
    };
    let work = sharded(automatic(records), vec![input]);
    let matching = object(18);
    let context = ShardPlanningContext {
        scheduler: &scheduler,
        resources: &resources,
        objects: &matching,
        topology: &topology,
    };
    let shards = select_ready_shards(&work, &vec![], &context).unwrap();
    assert_eq!(shards.len(), 2);
    assert_eq!(
        shards[0].task.shard.unwrap().partition,
        Some(TaskShardPartition::Records {
            input: 0,
            first_record: 0,
            record_count: 1,
            total_records: 3,
            offset: 0,
            length: 5,
            total_bytes: 18,
        })
    );
    assert_eq!(
        shards[1].task.shard.unwrap().partition,
        Some(TaskShardPartition::Records {
            input: 0,
            first_record: 1,
            record_count: 2,
            total_records: 3,
            offset: 5,
            length: 13,
            total_bytes: 18,
        })
    );
    assert_eq!(shards[1].task.input_byte_range(0), Some((5, 13)));
    assert_eq!(shards[1].task.input_byte_range(1), None);
    assert_eq!(number(shards[1].task.cost.compute_ms_on_reference), 100.0 * (2.0 / 3.0));
    assert_eq!(shards[0].task.cost.output_bytes, 3);
    assert_eq!(shards[1].task.cost.output_bytes, 7);
    let other = object(19);
    let mismatched = ShardPlanningContext { objects: &other, ..context };
    assert!(select_ready_shards(&work, &vec![], &mismatched).is_none());
}

#[test]
fn records_have_to_match_a_published_object() {
    let input = ObjectId::new();
    let records = AutoShardPolicy {
        partition: ShardPartitionSpec::Records { input: 0, offsets: vec![0, 5, 11, 18] },
        ..policy()
    };
    let work = job(vec![sharded(automatic(records), vec![input])], &["map"]);
    let sized = |size_bytes: u64| {
        BTreeMap::from([(
            input.0,
            ObjectMetadata {
                id: input,
                size_bytes,
                digest: None,
                encoding: None,
                locations: vec![],
                producer: None,
            },
        )])
    };
    let refusal = PlanError::InvalidLogicalJob(
        "role map record offsets must end at the size of a published Object".into(),
    );
    assert_eq!(validate_logical_job(&work, &sized(18)), Ok(()));
    assert_eq!(validate_record_partitions(&work, &sized(18)), Ok(()));
    for objects in [sized(17), sized(19), BTreeMap::new()] {
        assert_eq!(validate_logical_job(&work, &objects), Err(refusal.clone()));
        assert_eq!(validate_record_partitions(&work, &objects), Err(refusal.clone()));
        let planned = plan(
            &work,
            &TopologyAwareScheduler::default(),
            &vec![machine(ResourceId::new())],
            &objects,
            &TopologySnapshot::default(),
        );
        assert_eq!(planned.map(|plan| plan.roles.len()), Err(refusal.clone()));
    }
}

#[test]
fn record_offsets_are_checked() {
    let input = ObjectId::new();
    for offsets in [vec![], vec![1, 2], vec![0, 3, 3]] {
        let wrong = AutoShardPolicy {
            partition: ShardPartitionSpec::Records { input: 0, offsets },
            ..policy()
        };
        assert_eq!(
            fault(job(vec![sharded(automatic(wrong), vec![input])], &["map"])),
            "invalid logical job: role map record offsets must start at 0 and be strictly increasing"
        );
    }
}

fn accelerator(kind: AcceleratorKind, min_count: u32, memory: u64) -> AcceleratorRequirement {
    AcceleratorRequirement { kind, min_count, min_memory_bytes_per_device: memory }
}

#[test]
fn joint_requirements_meet_both() {
    assert_eq!(
        combine_architecture(&Some(Architecture::X86_64), &None),
        Some(Some(Architecture::X86_64))
    );
    assert_eq!(combine_architecture(&None, &None), Some(None));
    assert_eq!(
        combine_architecture(&Some(Architecture::X86_64), &Some(Architecture::Aarch64)),
        None
    );
    assert_eq!(
        combine_accelerator(
            &Some(accelerator(AcceleratorKind::Tpu, 2, 10)),
            &Some(accelerator(AcceleratorKind::Tpu, 1, 20))
        ),
        Some(Some(accelerator(AcceleratorKind::Tpu, 2, 20)))
    );
    assert_eq!(
        combine_accelerator(
            &Some(accelerator(AcceleratorKind::Tpu, 2, 10)),
            &Some(accelerator(AcceleratorKind::Fpga, 1, 20))
        ),
        None
    );
    let left = ResourceRequirements {
        min_memory_bytes: 5,
        required_features: NameSet::from_list(vec!["a".into()]),
        ..ResourceRequirements::default()
    };
    let right = ResourceRequirements {
        min_memory_bytes: 7,
        required_features: NameSet::from_list(vec!["b".into()]),
        ..ResourceRequirements::default()
    };
    let both = combine_requirements(&left, &right).unwrap();
    assert_eq!(both.min_memory_bytes, 7);
    assert!(both.required_features.contains("a") && both.required_features.contains("b"));
}

#[test]
fn fused_tasks_keep_their_inputs() {
    let x = ObjectId::new();
    let y = ObjectId::new();
    let z = ObjectId::new();
    let mut externals = vec![x];
    assert_eq!(
        pipeline_external_bindings(&vec![y, x, y], &mut externals),
        vec![
            PipelineInput::External { index: 1 },
            PipelineInput::External { index: 0 },
            PipelineInput::External { index: 1 },
        ]
    );
    assert_eq!(externals, vec![x, y]);

    let chain = vec![role("a", &[]), role("b", &["a"])];
    let choices = fused_implementation_choices(&chain, 2);
    assert_eq!(choices.len(), 1);
    assert_eq!(choices[0].names, vec!["plain".to_owned(), "plain".to_owned()]);

    let task = fused_pipeline_task(
        &vec![template(vec![x]), template(vec![y, x])],
        &vec![z],
        ResourceRequirements::default(),
    );
    assert_eq!(task.artifact, "plurifold:pipeline");
    assert_eq!(task.inputs, vec![x, z, y]);
    let stages = &task.pipeline.as_ref().unwrap().stages;
    assert_eq!(
        stages[0].inputs,
        vec![PipelineInput::External { index: 0 }, PipelineInput::External { index: 1 }]
    );
    assert_eq!(
        stages[1].inputs,
        vec![
            PipelineInput::External { index: 2 },
            PipelineInput::External { index: 0 },
            PipelineInput::PreviousOutput,
        ]
    );
    assert_eq!(number(task.cost.compute_ms_on_reference), 200.0);
    assert_eq!(task.cost.output_bytes, 10);
    assert_eq!(validate_task(&task), Ok(()));
}

fn pipeline(stages: Vec<TaskPipelineStage>) -> TaskSpec {
    TaskSpec {
        id: TaskId::new(),
        artifact: "plurifold:pipeline".into(),
        entrypoint: "run".into(),
        arguments: vec![],
        inputs: vec![ObjectId::new()],
        requirements: ResourceRequirements::default(),
        effects: EffectSemantics::Pure,
        cost: CostHint::default(),
        shard: None,
        pipeline: Some(TaskPipeline { stages }),
    }
}

fn stage(artifact: &str, inputs: Vec<PipelineInput>) -> TaskPipelineStage {
    TaskPipelineStage {
        artifact: artifact.into(),
        entrypoint: "run".into(),
        arguments: vec![],
        inputs,
    }
}

#[test]
fn pipelines_are_checked() {
    let good = || {
        vec![
            stage("builtin:identity", vec![PipelineInput::External { index: 0 }]),
            stage("builtin:identity", vec![PipelineInput::PreviousOutput]),
        ]
    };
    assert_eq!(validate_task(&pipeline(good())), Ok(()));
    let mut named = pipeline(good());
    named.artifact = "builtin:identity".into();
    assert_eq!(
        validate_task(&named),
        Err("pipeline tasks require artifact plurifold:pipeline and entrypoint run".to_owned())
    );
    let mut exclusive = pipeline(good());
    exclusive.effects = EffectSemantics::Exclusive;
    assert_eq!(
        validate_task(&exclusive),
        Err("pipeline tasks currently require Pure effect semantics".to_owned())
    );
    let mut short = pipeline(good());
    short.pipeline.as_mut().unwrap().stages.pop();
    assert_eq!(
        validate_task(&short),
        Err("pipeline tasks require at least two stages".to_owned())
    );
    let mut beyond = pipeline(good());
    beyond.inputs = vec![];
    assert_eq!(
        validate_task(&beyond),
        Err("pipeline stage 0 references external input index 0, but the task has 0 inputs".to_owned())
    );
    let early = pipeline(vec![
        stage("builtin:identity", vec![PipelineInput::PreviousOutput]),
        stage("builtin:identity", vec![PipelineInput::PreviousOutput]),
    ]);
    assert_eq!(
        validate_task(&early),
        Err("pipeline stage 0 has invalid previous-output bindings".to_owned())
    );
    let foreign = pipeline(vec![
        stage("wasm:x", vec![]),
        stage("builtin:identity", vec![PipelineInput::PreviousOutput]),
    ]);
    assert_eq!(
        validate_task(&foreign),
        Err("pipeline stage 0 uses unsupported artifact family wasm:x".to_owned())
    );
    let mut strange = pipeline(good());
    strange.pipeline.as_mut().unwrap().stages[1].entrypoint = "main".into();
    assert_eq!(
        validate_task(&strange),
        Err("pipeline stage 1 requires entrypoint run".to_owned())
    );
}
