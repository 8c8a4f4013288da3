use std::collections::BTreeMap;

use plurifold::binary64::Binary64;
use plurifold::collections::NameSet;
use plurifold::ids::{ObjectId, ResourceId};
use plurifold::jobs::{
    AutoShardPolicy, LogicalJobSpec, LogicalRoleSpec, RoleImplementation, ShardPartitionSpec,
    ShardPolicy, ShardPolicySpec,
};
use plurifold::objects::ObjectMetadata;
use plurifold::planner::plan;
use plurifold::resources::{Architecture, ResourceDescriptor, ResourceRequirements};
use plurifold::scheduler::TopologyAwareScheduler;
use plurifold::shards::{select_ready_shards, ShardPlanningContext};
use plurifold::tasks::{CostHint, EffectSemantics, TaskShardPartition, TaskTemplate};
use plurifold::topology::{LinkProfile, TopologySnapshot};

fn binary(x: f64) -> Binary64 {
    Binary64::from_bits(x.to_bits())
}

fn number(x: Binary64) -> f64 {
    f64::from_bits(x.to_bits())
}

fn worker(id: ResourceId, performance: f64, feature: &str) -> ResourceDescriptor {
    ResourceDescriptor {
        id,
        epoch: 1,
        architecture: Architecture::X86_64,
        cpu_cores: 16,
        memory_bytes: 64 << 30,
        accelerators: vec![],
        features: NameSet::from_list(vec![feature.to_owned()]),
        performance_score: binary(performance),
        queue_delay_ms: binary(0.0),
        startup_delay_ms: binary(0.0),
        failure_probability: binary(0.0),
    }
}

fn variant(
    name: &str,
    feature: &str,
    compute_ms: f64,
    output_bytes: u64,
) -> RoleImplementation {
    RoleImplementation {
        name: name.into(),
        task: TaskTemplate {
            artifact: "builtin:sleep".into(),
            entrypoint: "run".into(),
            arguments: vec!["1".into()],
            inputs: vec![],
            requirements: ResourceRequirements {
                required_features: NameSet::from_list(vec![feature.to_owned()]),
                ..ResourceRequirements::default()
            },
            effects: EffectSemantics::Pure,
            cost: CostHint {
                compute_ms_on_reference: binary(compute_ms),
                output_bytes,
            },
        },
    }
}

#[test]
fn chooses_the_best_heterogeneous_implementation() {
    let cpu = ResourceId::new();
    let accelerator = ResourceId::new();
    let logical = LogicalJobSpec {
        id: Default::default(),
        roles: vec![LogicalRoleSpec {
            reduction: None,
            name: "compute".into(),
            implementations: vec![
                variant("cpu", "backend:cpu", 10_000.0, 1),
                variant("accelerator", "backend:accel", 1_000.0, 1),
            ],
            depends_on: vec![],
            shards: ShardPolicy::from(1),
        }],
        outputs: vec!["compute".into()],
    };

    let plan = plan(
        &logical,
        &TopologyAwareScheduler::default(),
        &vec![
            worker(cpu, 1.0, "backend:cpu"),
            worker(accelerator, 2.0, "backend:accel"),
        ],
        &BTreeMap::new(),
        &TopologySnapshot::default(),
    )
    .unwrap();

    assert_eq!(plan.roles[0].shards[0].implementation, "accelerator");
    assert_eq!(plan.roles[0].shards[0].placement.resource_id, accelerator);
}

#[test]
fn downstream_placement_accounts_for_predicted_intermediate_transfer() {
    let left = ResourceId::new();
    let right = ResourceId::new();
    let logical = LogicalJobSpec {
        id: Default::default(),
        roles: vec![
            LogicalRoleSpec {
                reduction: None,
                name: "large".into(),
                implementations: vec![variant(
                    "large-left",
                    "site:left",
                    100.0,
                    100 << 20,
                )],
                depends_on: vec![],
                shards: ShardPolicy::from(1),
            },
            LogicalRoleSpec {
                reduction: None,
                name: "small".into(),
                implementations: vec![variant(
                    "small-right",
                    "site:right",
                    100.0,
                    1 << 20,
                )],
                depends_on: vec![],
                shards: ShardPolicy::from(1),
            },
            LogicalRoleSpec {
                reduction: None,
                name: "join".into(),
                implementations: vec![
                    variant("join-left", "site:left", 100.0, 1),
                    variant("join-right", "site:right", 100.0, 1),
                ],
                depends_on: vec!["large".into(), "small".into()],
                shards: ShardPolicy::from(1),
            },
        ],
        outputs: vec!["join".into()],
    };
    let topology = TopologySnapshot {
        links: vec![LinkProfile {
            from: left,
            to: right,
            rtt_ms: binary(80.0),
            bandwidth_mbps: binary(100.0),
        }],
    };

    let plan = plan(
        &logical,
        &TopologyAwareScheduler::default(),
        &vec![
            worker(left, 1.0, "site:left"),
            worker(right, 1.0, "site:right"),
        ],
        &BTreeMap::new(),
        &topology,
    )
    .unwrap();
    let join = plan.roles.iter().find(|role| role.name == "join").unwrap();

    assert_eq!(join.shards[0].implementation, "join-left");
    assert_eq!(join.shards[0].placement.resource_id, left);
    assert!(number(join.shards[0].placement.input_transfer_ms) < 500.0);
}

#[test]
fn independent_roles_are_predicted_to_run_in_parallel_when_resources_are_available() {
    let first = ResourceId::new();
    let second = ResourceId::new();
    let generic = |name: &str| LogicalRoleSpec {
        reduction: None,
        name: name.into(),
        implementations: vec![RoleImplementation {
            name: "generic".into(),
            task: TaskTemplate {
                artifact: "builtin:sleep".into(),
                entrypoint: "run".into(),
                arguments: vec!["1".into()],
                inputs: vec![],
                requirements: ResourceRequirements::default(),
                effects: EffectSemantics::Pure,
                cost: CostHint {
                    compute_ms_on_reference: binary(1_000.0),
                    output_bytes: 1,
                },
            },
        }],
        depends_on: vec![],
        shards: ShardPolicy::from(1),
    };
    let logical = LogicalJobSpec {
        id: Default::default(),
        roles: vec![generic("a"), generic("b")],
        outputs: vec!["a".into(), "b".into()],
    };

    let plan = plan(
        &logical,
        &TopologyAwareScheduler::default(),
        &vec![
            worker(first, 1.0, "unused:first"),
            worker(second, 1.0, "unused:second"),
        ],
        &BTreeMap::new(),
        &TopologySnapshot::default(),
    )
    .unwrap();

    assert_ne!(
        plan.roles[0].shards[0].placement.resource_id,
        plan.roles[1].shards[0].placement.resource_id
    );
    assert_eq!(number(plan.roles[0].shards[0].placement.start_ms), 0.0);
    assert_eq!(number(plan.roles[1].shards[0].placement.start_ms), 0.0);
    assert_eq!(number(plan.estimated_makespan_ms), 1_000.0);
}

#[test]
fn sharded_preview_spreads_then_reuses_resources_when_needed() {
    let first = ResourceId::new();
    let second = ResourceId::new();
    let logical = LogicalJobSpec {
        id: Default::default(),
        roles: vec![LogicalRoleSpec {
            reduction: None,
            name: "map".into(),
            implementations: vec![variant("worker", "shard:work", 1_000.0, 4)],
            depends_on: vec![],
            shards: ShardPolicy::from(3),
        }],
        outputs: vec!["map".into()],
    };

    let plan = plan(
        &logical,
        &TopologyAwareScheduler::default(),
        &vec![
            worker(first, 1.0, "shard:work"),
            worker(second, 1.0, "shard:work"),
        ],
        &BTreeMap::new(),
        &TopologySnapshot::default(),
    )
    .unwrap();

    let shards = &plan.roles[0].shards;
    assert_eq!(shards.len(), 3);
    assert_ne!(
        shards[0].placement.resource_id,
        shards[1].placement.resource_id
    );
    assert_eq!(number(shards[0].placement.start_ms), 0.0);
    assert_eq!(number(shards[1].placement.start_ms), 0.0);
    assert!(number(shards[2].placement.start_ms) >= 1_000.0);
    assert_eq!(number(plan.estimated_makespan_ms), 2_000.0);
}

#[test]
fn sharded_preview_can_mix_implementations_across_resources() {
    let cpu = ResourceId::new();
    let accelerator = ResourceId::new();
    let logical = LogicalJobSpec {
        id: Default::default(),
        roles: vec![LogicalRoleSpec {
            reduction: None,
            name: "map".into(),
            implementations: vec![
                variant("cpu", "backend:cpu", 1_000.0, 4),
                variant("accelerator", "backend:accel", 1_000.0, 4),
            ],
            depends_on: vec![],
            shards: ShardPolicy::from(2),
        }],
        outputs: vec!["map".into()],
    };

    let plan = plan(
        &logical,
        &TopologyAwareScheduler::default(),
        &vec![
            worker(cpu, 1.0, "backend:cpu"),
            worker(accelerator, 1.0, "backend:accel"),
        ],
        &BTreeMap::new(),
        &TopologySnapshot::default(),
    )
    .unwrap();

    let shards = &plan.roles[0].shards;
    assert_eq!(shards.len(), 2);
    assert_eq!(shards[0].implementation, "cpu");
    assert_eq!(shards[0].placement.resource_id, cpu);
    assert_eq!(shards[1].implementation, "accelerator");
    assert_eq!(shards[1].placement.resource_id, accelerator);
    assert_eq!(number(shards[0].placement.start_ms), 0.0);
    assert_eq!(number(shards[1].placement.start_ms), 0.0);
}

#[test]
fn auto_sharding_selects_two_workers_and_concrete_byte_ranges() {
    let first = ResourceId::new();
    let second = ResourceId::new();
    let input = ObjectId::new();
    let role = LogicalRoleSpec {
        reduction: None,
        name: "map".into(),
        implementations: vec![RoleImplementation {
            name: "worker".into(),
            task: TaskTemplate {
                artifact: "builtin:identity".into(),
                entrypoint: "run".into(),
                arguments: vec![],
                inputs: vec![input],
                requirements: ResourceRequirements {
                    required_features: NameSet::from_list(vec!["auto:work".into()]),
                    ..ResourceRequirements::default()
                },
                effects: EffectSemantics::Pure,
                cost: CostHint {
                    compute_ms_on_reference: binary(2_000.0),
                    output_bytes: 1_000,
                },
            },
        }],
        depends_on: vec![],
        shards: ShardPolicy::Policy(ShardPolicySpec::Auto(AutoShardPolicy {
            max_shards: 4,
            partition: ShardPartitionSpec::ByteRange { input: 0 },
            per_shard_overhead_ms: binary(0.0),
            min_gain_ratio: binary(0.05),
        })),
    };
    let objects = BTreeMap::from([(
        input.0,
        ObjectMetadata {
            id: input,
            size_bytes: 1_000,
            digest: None,
            encoding: None,
            locations: vec![first],
            producer: None,
        },
    )]);
    let resources = vec![
        worker(first, 1.0, "auto:work"),
        worker(second, 1.0, "auto:work"),
    ];
    let topology = TopologySnapshot {
        links: vec![LinkProfile {
            from: first,
            to: second,
            rtt_ms: binary(0.1),
            bandwidth_mbps: binary(10_000.0),
        }],
    };
    let context = ShardPlanningContext {
        scheduler: &TopologyAwareScheduler::default(),
        resources: &resources,
        objects: &objects,
        topology: &topology,
    };
    let shards = select_ready_shards(&role, &vec![], &context).unwrap();
    assert_eq!(shards.len(), 2);
    assert_ne!(shards[0].resource_id, shards[1].resource_id);
    assert_eq!(number(shards[0].task.cost.compute_ms_on_reference), 1_000.0);
    assert_eq!(number(shards[1].task.cost.compute_ms_on_reference), 1_000.0);
    assert_eq!(shards[0].task.cost.output_bytes, 500);
    assert_eq!(shards[1].task.cost.output_bytes, 500);
    assert_eq!(
        shards[0].task.shard.as_ref().unwrap().partition,
        Some(TaskShardPartition::ByteRange {
            input: 0,
            offset: 0,
            length: 500,
            total_bytes: 1_000,
        })
    );
    assert_eq!(
        shards[1].task.shard.as_ref().unwrap().partition,
        Some(TaskShardPartition::ByteRange {
            input: 0,
            offset: 500,
            length: 500,
            total_bytes: 1_000,
        })
    );
}

#[test]
fn auto_sharding_stays_single_when_remote_topology_is_too_expensive() {
    let local = ResourceId::new();
    let remote = ResourceId::new();
    let input = ObjectId::new();
    let role = LogicalRoleSpec {
        reduction: None,
        name: "map".into(),
        implementations: vec![RoleImplementation {
            name: "worker".into(),
            task: TaskTemplate {
                artifact: "builtin:identity".into(),
                entrypoint: "run".into(),
                arguments: vec![],
                inputs: vec![input],
                requirements: ResourceRequirements {
                    required_features: NameSet::from_list(vec!["auto:work".into()]),
                    ..ResourceRequirements::default()
                },
                effects: EffectSemantics::Pure,
                cost: CostHint {
                    compute_ms_on_reference: binary(100.0),
                    output_bytes: 1_000,
                },
            },
        }],
        depends_on: vec![],
        shards: ShardPolicy::Policy(ShardPolicySpec::Auto(AutoShardPolicy {
            max_shards: 4,
            partition: ShardPartitionSpec::ByteRange { input: 0 },
            per_shard_overhead_ms: binary(0.0),
            min_gain_ratio: binary(0.05),
        })),
    };
    let objects = BTreeMap::from([(
        input.0,
        ObjectMetadata {
            id: input,
            size_bytes: 1_000,
            digest: None,
            encoding: None,
            locations: vec![local],
            producer: None,
        },
    )]);
    let resources = vec![
        worker(local, 1.0, "auto:work"),
        worker(remote, 1.0, "auto:work"),
    ];
    let topology = TopologySnapshot {
        links: vec![LinkProfile {
            from: local,
            to: remote,
            rtt_ms: binary(500.0),
            bandwidth_mbps: binary(1.0),
        }],
    };
    let context = ShardPlanningContext {
        scheduler: &TopologyAwareScheduler::default(),
        resources: &resources,
        objects: &objects,
        topology: &topology,
    };
    let shards = select_ready_shards(&role, &vec![], &context).unwrap();
    assert_eq!(shards.len(), 1);
    assert_eq!(shards[0].resource_id, local);
}
