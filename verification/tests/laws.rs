use std::collections::BTreeMap;

use plurifold::binary64::Binary64;
use plurifold::chains::{separate_chain_paths, FusionContext};
use plurifold::collections::NameSet;
use plurifold::fabric::Fabric;
use plurifold::fusion::fused_pipeline_task;
use plurifold::ids::{ExecutionId, ObjectId, ResourceId, TaskId};
use plurifold::jobs::{
    default_role_shards, AutoShardPolicy, LogicalRoleSpec, RoleImplementation, ShardPartitionSpec,
    ShardPolicy, ShardPolicySpec,
};
use plurifold::objects::ObjectMetadata;
use plurifold::operations::execute_task;
use plurifold::resources::{Architecture, ResourceDescriptor, ResourceRequirements};
use plurifold::scheduler::{FusionAdvisor, TopologyAwareScheduler};
use plurifold::shards::{select_ready_shards, ShardPlanningContext};
use plurifold::status::TaskStatus;
use plurifold::tasks::{CostHint, EffectSemantics, TaskSpec, TaskTemplate};
use plurifold::topology::{LinkProfile, TopologySnapshot};

fn binary(x: f64) -> Binary64 {
    Binary64::from_bits(x.to_bits())
}

fn number(x: Binary64) -> f64 {
    f64::from_bits(x.to_bits())
}

fn machine(id: ResourceId, performance: f64) -> ResourceDescriptor {
    ResourceDescriptor {
        id,
        epoch: 0,
        architecture: Architecture::X86_64,
        cpu_cores: 8,
        memory_bytes: 16 << 30,
        accelerators: vec![],
        features: NameSet::new(),
        performance_score: binary(performance),
        queue_delay_ms: binary(0.0),
        startup_delay_ms: binary(0.0),
        failure_probability: binary(0.0),
    }
}

fn template(artifact: &str, arguments: &[&str], inputs: Vec<ObjectId>, compute: f64) -> TaskTemplate {
    TaskTemplate {
        artifact: artifact.into(),
        entrypoint: "run".into(),
        arguments: arguments.iter().map(|text| (*text).to_owned()).collect(),
        inputs,
        requirements: ResourceRequirements::default(),
        effects: EffectSemantics::Pure,
        cost: CostHint { compute_ms_on_reference: binary(compute), output_bytes: 1_000 },
    }
}

/// Runs a task on objects of which the bytes are known.
fn run(task: &TaskSpec, contents: &BTreeMap<u128, Vec<u8>>) -> Result<Vec<u8>, String> {
    let inputs = task.inputs.iter().map(|id| contents[&id.0].clone()).collect();
    execute_task(task, &inputs)
}

#[test]
fn a_fused_task_comes_to_the_same_as_its_tasks() {
    let header = ObjectId::new();
    let body = ObjectId::new();
    let mut contents = BTreeMap::from([
        (header.0, b"head:".to_vec()),
        (body.0, b"body".to_vec()),
    ]);
    let chain = vec![
        template("builtin:concat", &[], vec![header], 1.0),
        template("builtin:identity", &[], vec![], 1.0),
        template("builtin:concat", &[], vec![body, header], 1.0),
    ];
    let dependencies = vec![body];

    let fused = fused_pipeline_task(&chain, &dependencies, ResourceRequirements::default());
    assert_eq!(fused.inputs, vec![header, body]);
    let together = run(&fused, &contents);

    let mut apart = run(&chain[0].instantiate(&dependencies), &contents).unwrap();
    for task in &chain[1..] {
        let between = ObjectId::new();
        contents.insert(between.0, apart);
        apart = run(&task.instantiate(&vec![between]), &contents).unwrap();
    }
    assert_eq!(apart, b"bodyhead:head:body".to_vec());
    assert_eq!(together, Ok(apart));
}

#[test]
fn a_fused_task_fails_where_one_of_its_tasks_does() {
    let chain = vec![
        template("builtin:echo", &["x"], vec![], 1.0),
        template("builtin:sum-u64", &[], vec![], 1.0),
    ];
    let fused = fused_pipeline_task(&chain, &vec![], ResourceRequirements::default());
    let first = run(&chain[0].instantiate(&vec![]), &BTreeMap::new()).unwrap();
    let between = ObjectId::new();
    let contents = BTreeMap::from([(between.0, first)]);
    let apart = run(&chain[1].instantiate(&vec![between]), &contents);
    assert!(apart.is_err());
    assert_eq!(run(&fused, &contents), apart);
}

#[test]
fn the_cheapest_way_through_a_chain_is_found() {
    let slow = ResourceId::new();
    let fast = ResourceId::new();
    let resources = vec![machine(slow, 1.0), machine(fast, 4.0)];
    let topology = TopologySnapshot {
        links: vec![LinkProfile {
            from: slow,
            to: fast,
            rtt_ms: binary(10.0),
            bandwidth_mbps: binary(1_000.0),
        }],
    };
    let scheduler = TopologyAwareScheduler::default();
    let advisor = FusionAdvisor::default();
    let input = ObjectId::new();
    let objects = BTreeMap::from([(
        input.0,
        ObjectMetadata {
            id: input,
            size_bytes: 8,
            digest: None,
            encoding: None,
            locations: vec![slow],
            producer: None,
        },
    )]);
    let context = FusionContext {
        scheduler: &scheduler,
        advisor: &advisor,
        resources: &resources,
        objects: &objects,
        topology: &topology,
    };
    let role = |name: &str, inputs: Vec<ObjectId>, compute: f64| LogicalRoleSpec {
        name: name.into(),
        implementations: vec![
            RoleImplementation {
                name: "plain".into(),
                task: template("builtin:identity", &[], inputs.clone(), compute),
            },
            RoleImplementation {
                name: "slower".into(),
                task: template("builtin:identity", &[], inputs, 2.0 * compute),
            },
        ],
        depends_on: vec![],
        shards: default_role_shards(),
        reduction: None,
    };
    let chain = vec![role("first", vec![input], 4.0), role("second", vec![], 400.0)];
    let paths = separate_chain_paths(&chain, 2, &vec![], &context).unwrap();

    let transfer = |bytes: f64| 10.0 + bytes / 125_000.0;
    let mut cheapest = f64::INFINITY;
    let mut cheapest_crossing = f64::INFINITY;
    for (first, first_speed) in [(slow, 1.0), (fast, 4.0)] {
        for (second, second_speed) in [(slow, 1.0), (fast, 4.0)] {
            for (a, b) in [(4.0, 400.0), (4.0, 800.0), (8.0, 400.0), (8.0, 800.0)] {
                let mut total = a / first_speed + b / second_speed;
                if first == fast {
                    total += transfer(8.0);
                }
                if first != second {
                    total += transfer(1_000.0);
                    cheapest_crossing = f64::min(cheapest_crossing, total);
                }
                cheapest = f64::min(cheapest, total);
            }
        }
    }
    assert!((number(paths.best.total_ms) - cheapest).abs() < 1e-9);
    assert_eq!(paths.best.resource_id, fast);
    assert_eq!(paths.best.implementation_index, 0);
    let crossing = paths.best_cross_resource.unwrap();
    assert!(crossing.has_cross_resource_edge);
    assert!((number(crossing.total_ms) - cheapest_crossing).abs() < 1e-9);
}

#[test]
fn more_shards_have_to_pay() {
    let ids: Vec<ResourceId> = (0..4).map(|_| ResourceId::new()).collect();
    let resources: Vec<ResourceDescriptor> = ids.iter().map(|id| machine(*id, 1.0)).collect();
    let input = ObjectId::new();
    let objects = BTreeMap::from([(
        input.0,
        ObjectMetadata {
            id: input,
            size_bytes: 4_000,
            digest: None,
            encoding: None,
            locations: ids.clone(),
            producer: None,
        },
    )]);
    let topology = TopologySnapshot::default();
    let scheduler = TopologyAwareScheduler::default();
    let context = ShardPlanningContext {
        scheduler: &scheduler,
        resources: &resources,
        objects: &objects,
        topology: &topology,
    };
    let count = |overhead: f64, ratio: f64| {
        let role = LogicalRoleSpec {
            name: "map".into(),
            implementations: vec![RoleImplementation {
                name: "plain".into(),
                task: template("builtin:identity", &[], vec![input], 100.0),
            }],
            depends_on: vec![],
            shards: ShardPolicy::Policy(ShardPolicySpec::Auto(AutoShardPolicy {
                max_shards: 4,
                partition: ShardPartitionSpec::ByteRange { input: 0 },
                per_shard_overhead_ms: binary(overhead),
                min_gain_ratio: binary(ratio),
            })),
            reduction: None,
        };
        select_ready_shards(&role, &vec![], &context).unwrap().len()
    };
    assert_eq!(count(0.0, 0.0), 4);
    assert_eq!(count(0.0, 0.4), 4);
    assert_eq!(count(0.0, 0.6), 3);
    assert_eq!(count(0.0, 0.7), 4);
    assert_eq!(count(0.0, 0.9), 1);
}

#[test]
fn a_join_leaves_running_work_alone() {
    let worker = ResourceId::new();
    let mut fabric = Fabric::new(10_000, 1_000);
    fabric.register_resource_at(machine(worker, 1.0), 0);
    let task = TaskSpec { id: TaskId::new(), ..template("test", &[], vec![], 1.0).instantiate(&vec![]) };
    let id = fabric.submit(task).unwrap();
    let lease = fabric.begin_execution_at(id, worker, 10, ExecutionId::new()).unwrap();
    fabric.register_resource_at(machine(ResourceId::new(), 100.0), 20);
    assert_eq!(fabric.task_status(id), Some(&TaskStatus::Running(lease)));
    assert_eq!(fabric.resource_epoch_at(worker, 30), Some(1));
}

#[test]
fn the_first_link_between_two_resources_counts() {
    let a = ResourceId::new();
    let b = ResourceId::new();
    let link = |from, to, rtt: f64| LinkProfile {
        from,
        to,
        rtt_ms: binary(rtt),
        bandwidth_mbps: binary(1.0),
    };
    let topology = TopologySnapshot { links: vec![link(b, a, 7.0), link(a, b, 3.0)] };
    assert_eq!(topology.link(a, b).map(|link| number(link.rtt_ms)), Some(7.0));
    assert_eq!(topology.link(b, a).map(|link| number(link.rtt_ms)), Some(7.0));
    assert!(topology.link(a, ResourceId::new()).is_none());
}

#[test]
fn sums_and_quotients_keep_the_order() {
    let numbers = [-1e300, -3.5, -1e-320, -0.0, 0.0, 1e-320, 0.1, 0.3, 1.0, 1e16, 1e300];
    for a in numbers {
        for b in numbers {
            for c in numbers {
                if a <= b {
                    assert!(binary(a).add(binary(c)).le(binary(b).add(binary(c))));
                    if c > 0.0 {
                        assert!(binary(a).div(binary(c)).le(binary(b).div(binary(c))));
                    }
                }
            }
            let difference = binary(a).sub(binary(b));
            assert_eq!(difference.lt(binary(0.0)), a < b);
            assert_eq!(binary(a).add(binary(b)).to_bits(), binary(b).add(binary(a)).to_bits());
        }
    }
}
