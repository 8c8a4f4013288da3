use std::collections::BTreeMap;

use plurifold::binary64::Binary64;
use plurifold::collections::NameSet;
use plurifold::ids::{ObjectId, ResourceId, TaskId};
use plurifold::objects::ObjectMetadata;
use plurifold::resources::{Architecture, ResourceDescriptor, ResourceRequirements};
use plurifold::scheduler::{FusionAdvisor, ScheduleError, TopologyAwareScheduler};
use plurifold::tasks::{CostHint, EffectSemantics, TaskShard, TaskShardPartition, TaskSpec};
use plurifold::topology::{LinkProfile, TopologySnapshot};

fn binary(x: f64) -> Binary64 {
    Binary64::from_bits(x.to_bits())
}

fn number(x: Binary64) -> f64 {
    f64::from_bits(x.to_bits())
}

fn resource(id: ResourceId, performance: f64) -> ResourceDescriptor {
    ResourceDescriptor {
        id,
        epoch: 1,
        architecture: Architecture::X86_64,
        cpu_cores: 16,
        memory_bytes: 64 << 30,
        accelerators: vec![],
        features: NameSet::new(),
        performance_score: binary(performance),
        queue_delay_ms: binary(0.0),
        startup_delay_ms: binary(0.0),
        failure_probability: binary(0.0),
    }
}

fn task(input: ObjectId, compute_ms: f64) -> TaskSpec {
    TaskSpec {
        id: TaskId::new(),
        artifact: "demo".into(),
        entrypoint: "run".into(),
        arguments: vec![],
        inputs: vec![input],
        requirements: ResourceRequirements::default(),
        effects: EffectSemantics::Pure,
        cost: CostHint {
            compute_ms_on_reference: binary(compute_ms),
            output_bytes: 0,
        },
        shard: None,
        pipeline: None,
    }
}

#[test]
fn keeps_data_heavy_work_local_even_when_remote_compute_is_faster() {
    let local = ResourceId::new();
    let remote = ResourceId::new();
    let object_id = ObjectId::new();
    let objects = BTreeMap::from([(
        object_id.0,
        ObjectMetadata {
            id: object_id,
            size_bytes: 10 << 30,
            digest: None,
            encoding: None,
            locations: vec![local],
            producer: None,
        },
    )]);
    let topology = TopologySnapshot {
        links: vec![LinkProfile {
            from: local,
            to: remote,
            rtt_ms: binary(100.0),
            bandwidth_mbps: binary(100.0),
        }],
    };
    let decision = TopologyAwareScheduler::default()
        .choose_placement(
            &task(object_id, 5_000.0),
            &vec![resource(local, 1.0), resource(remote, 10.0)],
            &objects,
            &topology,
        )
        .unwrap();
    assert_eq!(decision.resource_id, local);
}

#[test]
fn sends_compute_heavy_small_input_work_to_faster_remote_resource() {
    let local = ResourceId::new();
    let remote = ResourceId::new();
    let object_id = ObjectId::new();
    let objects = BTreeMap::from([(
        object_id.0,
        ObjectMetadata {
            id: object_id,
            size_bytes: 1 << 20,
            digest: None,
            encoding: None,
            locations: vec![local],
            producer: None,
        },
    )]);
    let topology = TopologySnapshot {
        links: vec![LinkProfile {
            from: local,
            to: remote,
            rtt_ms: binary(100.0),
            bandwidth_mbps: binary(1_000.0),
        }],
    };
    let decision = TopologyAwareScheduler::default()
        .choose_placement(
            &task(object_id, 60_000.0),
            &vec![resource(local, 1.0), resource(remote, 10.0)],
            &objects,
            &topology,
        )
        .unwrap();
    assert_eq!(decision.resource_id, remote);
}

fn at(size_bytes: u64, id: ObjectId, locations: Vec<ResourceId>) -> BTreeMap<u128, ObjectMetadata> {
    BTreeMap::from([(
        id.0,
        ObjectMetadata {
            id,
            size_bytes,
            digest: None,
            encoding: None,
            locations,
            producer: None,
        },
    )])
}

#[test]
fn placement_costs_are_added_up_as_doubles() {
    let source = ResourceId::new();
    let target = ResourceId::new();
    let input = ObjectId::new();
    let mut machine = resource(target, 3.0);
    machine.queue_delay_ms = binary(7.3);
    machine.startup_delay_ms = binary(-2.0);
    machine.failure_probability = binary(0.1);
    let topology = TopologySnapshot {
        links: vec![LinkProfile {
            from: target,
            to: source,
            rtt_ms: binary(3.7),
            bandwidth_mbps: binary(12.5),
        }],
    };
    let scheduler = TopologyAwareScheduler { risk_multiplier: binary(1.5) };
    let cost = scheduler
        .placement_cost(&task(input, 100.0), &machine, &at(123_457, input, vec![source]), &topology)
        .unwrap();
    let compute = 100.0 / 3.0;
    let transfer = 3.7 + 123_457_f64 / (12.5 * 1_000_000.0 / 8.0 / 1_000.0);
    let risk = compute * 0.1 * 1.5;
    assert_eq!(number(cost.compute_ms), compute);
    assert_eq!(number(cost.input_transfer_ms), transfer);
    assert_eq!(number(cost.queue_ms), 7.3);
    assert_eq!(number(cost.startup_ms), 0.0);
    assert_eq!(number(cost.risk_penalty_ms), risk);
    assert_eq!(number(cost.total_ms), compute + transfer + 7.3 + 0.0 + risk);
}

#[test]
fn local_inputs_cost_no_transfer() {
    let local = ResourceId::new();
    let input = ObjectId::new();
    let cost = TopologyAwareScheduler::default()
        .placement_cost(
            &task(input, 8.0),
            &resource(local, 2.0),
            &at(1 << 40, input, vec![local]),
            &TopologySnapshot::default(),
        )
        .unwrap();
    assert_eq!(number(cost.input_transfer_ms), 0.0);
    assert_eq!(number(cost.total_ms), 4.0);
}

#[test]
fn only_the_bytes_of_a_range_are_moved() {
    let source = ResourceId::new();
    let target = ResourceId::new();
    let input = ObjectId::new();
    let mut narrowed = task(input, 1.0);
    narrowed.shard = Some(TaskShard {
        index: 0,
        count: 2,
        partition: Some(TaskShardPartition::ByteRange {
            input: 0,
            offset: 0,
            length: 1_000,
            total_bytes: 2_000,
        }),
    });
    let topology = TopologySnapshot {
        links: vec![LinkProfile {
            from: source,
            to: target,
            rtt_ms: binary(2.0),
            bandwidth_mbps: binary(1.0),
        }],
    };
    let cost = TopologyAwareScheduler::default()
        .placement_cost(
            &narrowed,
            &resource(target, 1.0),
            &at(2_000, input, vec![source]),
            &topology,
        )
        .unwrap();
    assert_eq!(
        cost.input_transfer_ms,
        topology.links[0].transfer_time_ms(1_000).unwrap()
    );
    assert_ne!(
        cost.input_transfer_ms,
        topology.links[0].transfer_time_ms(2_000).unwrap()
    );
}

#[test]
fn unknown_inputs_are_reported() {
    let local = ResourceId::new();
    let input = ObjectId::new();
    let error = TopologyAwareScheduler::default()
        .choose_placement(
            &task(input, 1.0),
            &vec![resource(local, 1.0)],
            &BTreeMap::new(),
            &TopologySnapshot::default(),
        )
        .unwrap_err();
    assert_eq!(error, ScheduleError::MissingObject(input));
    assert_eq!(
        error.message(),
        format!("task references unknown object {}", input.text())
    );
}

#[test]
fn unreachable_inputs_leave_no_candidate() {
    let local = ResourceId::new();
    let elsewhere = ResourceId::new();
    let input = ObjectId::new();
    let error = TopologyAwareScheduler::default()
        .choose_placement(
            &task(input, 1.0),
            &vec![resource(local, 1.0), resource(ResourceId::new(), 0.0)],
            &at(1, input, vec![elsewhere]),
            &TopologySnapshot::default(),
        )
        .unwrap_err();
    assert_eq!(error, ScheduleError::NoCandidate);
    assert_eq!(error.message(), "no compatible resource has reachable inputs");
}

#[test]
fn the_first_of_equal_candidates_is_chosen() {
    let first = ResourceId::new();
    let second = ResourceId::new();
    let mut pure = task(ObjectId::new(), 10.0);
    pure.inputs = vec![];
    let decision = TopologyAwareScheduler::default()
        .choose_placement(
            &pure,
            &vec![resource(first, 1.0), resource(second, 1.0)],
            &BTreeMap::new(),
            &TopologySnapshot::default(),
        )
        .unwrap();
    assert_eq!(decision.resource_id, first);
    assert_eq!(number(decision.cost.total_ms), 10.0);
}

#[test]
fn more_resources_never_cost_more() {
    let slow = ResourceId::new();
    let fast = ResourceId::new();
    let mut pure = task(ObjectId::new(), 10.0);
    pure.inputs = vec![];
    let scheduler = TopologyAwareScheduler::default();
    let few = scheduler
        .choose_placement(
            &pure,
            &vec![resource(slow, 1.0)],
            &BTreeMap::new(),
            &TopologySnapshot::default(),
        )
        .unwrap();
    let more = scheduler
        .choose_placement(
            &pure,
            &vec![resource(slow, 1.0), resource(fast, 4.0)],
            &BTreeMap::new(),
            &TopologySnapshot::default(),
        )
        .unwrap();
    assert_eq!(number(few.cost.total_ms), 10.0);
    assert_eq!(number(more.cost.total_ms), 2.5);
}

#[test]
fn fusion_is_advised_from_twenty_milliseconds_on() {
    let mut link = LinkProfile {
        from: ResourceId::new(),
        to: ResourceId::new(),
        rtt_ms: binary(20.0),
        bandwidth_mbps: binary(1_000.0),
    };
    let advisor = FusionAdvisor::default();
    let advice = advisor.evaluate(0, &link);
    assert_eq!(number(advice.estimated_saved_transfer_ms), 20.0);
    assert!(advice.should_fuse);
    link.rtt_ms = binary(19.0);
    assert!(!advisor.evaluate(0, &link).should_fuse);
    link.bandwidth_mbps = binary(0.0);
    let endless = advisor.evaluate(1, &link);
    assert!(endless.should_fuse);
    assert_eq!(number(endless.estimated_saved_transfer_ms), f64::INFINITY);
}
