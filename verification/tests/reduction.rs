use std::collections::BTreeMap;

use plurifold::binary64::Binary64;
use plurifold::collections::NameSet;
use plurifold::fabric::Fabric;
use plurifold::ids::{ExecutionId, JobId, ObjectId, ResourceId, TaskId};
use plurifold::jobs::{
    LogicalJobSpec, LogicalRoleSpec, RoleImplementation, RoleReductionSpec, ShardPolicy,
};
use plurifold::objects::ObjectMetadata;
use plurifold::operations::execute_task;
use plurifold::planner::{plan, CooperativePlan};
use plurifold::reduction::reduction_groups;
use plurifold::resources::{Architecture, ResourceDescriptor, ResourceRequirements};
use plurifold::scheduler::TopologyAwareScheduler;
use plurifold::status::{
    CooperativeJobStatus, CooperativeRoleStatus, ReductionStatus, TaskStatus,
};
use plurifold::tasks::{CostHint, EffectSemantics, TaskTemplate};
use plurifold::topology::{LinkProfile, TopologySnapshot};
use plurifold::validation::{validate_logical_job, PlanError};

fn binary(x: f64) -> Binary64 {
    Binary64::from_bits(x.to_bits())
}

fn number(x: Binary64) -> f64 {
    f64::from_bits(x.to_bits())
}

fn link(from: ResourceId, to: ResourceId, rtt: f64) -> LinkProfile {
    LinkProfile { from, to, rtt_ms: binary(rtt), bandwidth_mbps: binary(1_000.0) }
}

fn topology(links: Vec<LinkProfile>) -> TopologySnapshot {
    TopologySnapshot { links }
}

fn machine(id: ResourceId, features: &[&str]) -> ResourceDescriptor {
    ResourceDescriptor {
        id,
        epoch: 0,
        architecture: Architecture::X86_64,
        cpu_cores: 8,
        memory_bytes: 16 << 30,
        accelerators: vec![],
        features: NameSet::from_list(features.iter().map(|name| (*name).to_owned()).collect()),
        performance_score: binary(1.0),
        queue_delay_ms: binary(0.0),
        startup_delay_ms: binary(0.0),
        failure_probability: binary(0.0),
    }
}

fn template(feature: Option<&str>, compute_ms: f64) -> TaskTemplate {
    TaskTemplate {
        artifact: "test".into(),
        entrypoint: "run".into(),
        arguments: vec![],
        inputs: vec![],
        requirements: ResourceRequirements {
            required_features: NameSet::from_list(
                feature.iter().map(|name| (*name).to_owned()).collect(),
            ),
            ..ResourceRequirements::default()
        },
        effects: EffectSemantics::Pure,
        cost: CostHint { compute_ms_on_reference: binary(compute_ms), output_bytes: 8 },
    }
}

fn reduction(max_fan_in: u32, locality: f64) -> RoleReductionSpec {
    RoleReductionSpec {
        name: "sum".into(),
        task: template(None, 10.0),
        max_fan_in,
        locality_rtt_ms: binary(locality),
    }
}

fn job(shards: u32, reduction: Option<RoleReductionSpec>) -> LogicalJobSpec {
    LogicalJobSpec {
        id: JobId::new(),
        roles: vec![
            LogicalRoleSpec {
                name: "map".into(),
                implementations: vec![RoleImplementation {
                    name: "plain".into(),
                    task: template(None, 100.0),
                }],
                depends_on: vec![],
                shards: ShardPolicy::Fixed(shards),
                reduction,
            },
            LogicalRoleSpec {
                name: "show".into(),
                implementations: vec![RoleImplementation {
                    name: "plain".into(),
                    task: template(None, 1.0),
                }],
                depends_on: vec!["map".into()],
                shards: ShardPolicy::Fixed(1),
                reduction: None,
            },
        ],
        outputs: vec!["show".into()],
    }
}

fn with_members(ids: &[ResourceId]) -> Fabric {
    let mut fabric = Fabric::new(100_000, 1_000);
    for id in ids {
        fabric.register_resource_at(machine(*id, &[]), 0);
    }
    fabric
}

fn finish(fabric: &mut Fabric, task_id: TaskId, worker: ResourceId, now: u64) -> ObjectId {
    let lease = fabric.begin_execution_at(task_id, worker, now, ExecutionId::new()).unwrap();
    let id = ObjectId::new();
    let output = ObjectMetadata {
        id,
        size_bytes: 8,
        digest: Some("sha256:x".into()),
        encoding: None,
        locations: vec![worker],
        producer: Some(task_id),
    };
    fabric.complete_execution_at(&lease, vec![output], now + 1).unwrap();
    id
}

fn map_status(fabric: &Fabric, job: JobId) -> CooperativeRoleStatus {
    let views = fabric.cooperative_role_views(job).unwrap();
    views.iter().find(|role| role.name == "map").unwrap().status.clone()
}

fn shards_of(fabric: &Fabric, job: JobId) -> Vec<TaskId> {
    match map_status(fabric, job) {
        CooperativeRoleStatus::Sharded(shards) => shards.iter().map(|shard| shard.task_id).collect(),
        status => panic!("the role is not sharded: {status:?}"),
    }
}

fn level_of(fabric: &Fabric, job: JobId) -> Vec<ReductionStatus> {
    match map_status(fabric, job) {
        CooperativeRoleStatus::Reducing(groups) => groups,
        status => panic!("the role does not reduce: {status:?}"),
    }
}

#[test]
fn objects_in_one_place_are_grouped() {
    let a = ResourceId::new();
    let b = ResourceId::new();
    let places = vec![vec![a], vec![a], vec![b], vec![b]];
    let none = topology(vec![]);
    assert_eq!(reduction_groups(&places, 4, binary(2.0), &none), vec![2, 4]);
    let near = topology(vec![link(b, a, 2.0)]);
    assert_eq!(reduction_groups(&places, 4, binary(2.0), &near), vec![4]);
    assert_eq!(reduction_groups(&places, 3, binary(2.0), &near), vec![3, 4]);
    let far = topology(vec![link(a, b, 2.1)]);
    assert_eq!(reduction_groups(&places, 4, binary(2.0), &far), vec![2, 4]);
}

#[test]
fn an_object_joins_a_group_only_if_it_is_local_to_every_member() {
    let a = ResourceId::new();
    let b = ResourceId::new();
    let c = ResourceId::new();
    let places = vec![vec![a], vec![b], vec![c]];
    let chain = topology(vec![link(a, b, 1.0), link(b, c, 1.0), link(a, c, 50.0)]);
    assert_eq!(reduction_groups(&places, 8, binary(2.0), &chain), vec![2, 3]);
    let replicated = vec![vec![a], vec![b], vec![c, a]];
    assert_eq!(reduction_groups(&replicated, 8, binary(2.0), &chain), vec![3]);
}

#[test]
fn distant_objects_are_grouped_in_their_order() {
    let ids: Vec<ResourceId> = (0..5).map(|_| ResourceId::new()).collect();
    let places: Vec<Vec<ResourceId>> = ids.iter().map(|id| vec![*id]).collect();
    let none = topology(vec![]);
    assert_eq!(reduction_groups(&places, 2, binary(2.0), &none), vec![2, 4, 5]);
    assert_eq!(reduction_groups(&places, 3, binary(2.0), &none), vec![3, 5]);
    assert_eq!(reduction_groups(&places, 9, binary(2.0), &none), vec![5]);
    assert_eq!(reduction_groups(&vec![], 9, binary(2.0), &none), Vec::<usize>::new());
}

#[test]
fn contributions_are_reduced_near_them_first() {
    let a = ResourceId::new();
    let b = ResourceId::new();
    let mut fabric = with_members(&[a, b]);
    fabric.upsert_link(link(a, b, 40.0));
    let id = fabric.submit_logical_at(job(4, Some(reduction(4, 2.0))), 1).unwrap();
    let shards = shards_of(&fabric, id);
    let fourth = finish(&mut fabric, shards[3], b, 10);
    let first = finish(&mut fabric, shards[0], a, 20);
    let third = finish(&mut fabric, shards[2], b, 30);
    let second = finish(&mut fabric, shards[1], a, 40);

    let level = level_of(&fabric, id);
    assert_eq!(level.len(), 2);
    assert_eq!(level[0].inputs, vec![first, second]);
    assert_eq!(level[1].inputs, vec![third, fourth]);
    let reducers: Vec<TaskId> = level.iter().map(|group| group.task_id.unwrap()).collect();
    assert_eq!(fabric.task_spec(reducers[1]).unwrap().inputs, vec![third, fourth]);
    assert_eq!(fabric.task_spec(reducers[1]).unwrap().shard, None);

    let right = finish(&mut fabric, reducers[1], b, 50);
    assert_eq!(level_of(&fabric, id)[1].outputs, Some(vec![right]));
    let left = finish(&mut fabric, reducers[0], a, 60);

    let level = level_of(&fabric, id);
    assert_eq!(level.len(), 1);
    assert_eq!(level[0].inputs, vec![left, right]);
    let whole = finish(&mut fabric, level[0].task_id.unwrap(), a, 70);
    assert_eq!(map_status(&fabric, id), CooperativeRoleStatus::Completed(vec![whole]));

    let show = fabric.pending_task_ids();
    assert_eq!(show.len(), 1);
    assert_eq!(fabric.task_spec(show[0]).unwrap().inputs, vec![whole]);
    let end = finish(&mut fabric, show[0], b, 80);
    assert_eq!(
        fabric.cooperative_job_status(id),
        Some(CooperativeJobStatus::Completed(vec![end]))
    );
}

#[test]
fn an_object_that_stands_alone_is_carried_to_the_next_level() {
    let a = ResourceId::new();
    let mut fabric = with_members(&[a]);
    let id = fabric.submit_logical_at(job(3, Some(reduction(2, 0.0))), 1).unwrap();
    let shards = shards_of(&fabric, id);
    let outputs: Vec<ObjectId> =
        (0..3).map(|i| finish(&mut fabric, shards[i], a, 10 + 10 * i as u64)).collect();
    let level = level_of(&fabric, id);
    assert_eq!(level.len(), 2);
    assert_eq!(level[1].task_id, None);
    assert_eq!(level[1].outputs, Some(vec![outputs[2]]));
    let pair = finish(&mut fabric, level[0].task_id.unwrap(), a, 50);
    let level = level_of(&fabric, id);
    assert_eq!(level[0].inputs, vec![pair, outputs[2]]);
    let whole = finish(&mut fabric, level[0].task_id.unwrap(), a, 60);
    assert_eq!(map_status(&fabric, id), CooperativeRoleStatus::Completed(vec![whole]));
}

#[test]
fn a_lost_reducer_runs_again_without_its_shards() {
    let a = ResourceId::new();
    let mut fabric = with_members(&[a]);
    let id = fabric.submit_logical_at(job(2, Some(reduction(2, 0.0))), 1).unwrap();
    let shards = shards_of(&fabric, id);
    let first = finish(&mut fabric, shards[0], a, 10);
    let second = finish(&mut fabric, shards[1], a, 20);
    let reducer = level_of(&fabric, id)[0].task_id.unwrap();
    let lease = fabric.begin_execution_at(reducer, a, 30, ExecutionId::new()).unwrap();
    assert_eq!(fabric.reap_expired_executions_at(lease.expires_at_unix_ms), vec![reducer]);
    assert_eq!(fabric.task_status(reducer), Some(&TaskStatus::Pending));
    assert_eq!(fabric.task_status(shards[0]), Some(&TaskStatus::Completed(vec![first])));
    assert_eq!(fabric.task_status(shards[1]), Some(&TaskStatus::Completed(vec![second])));
    let whole = finish(&mut fabric, reducer, a, 2_000);
    assert_eq!(map_status(&fabric, id), CooperativeRoleStatus::Completed(vec![whole]));
}

#[test]
fn what_a_level_leaves_does_not_depend_on_the_order_of_its_reducers() {
    let a = ResourceId::new();
    for order in [[0, 1], [1, 0]] {
        let mut fabric = with_members(&[a]);
        let id = fabric.submit_logical_at(job(4, Some(reduction(2, 0.0))), 1).unwrap();
        let shards = shards_of(&fabric, id);
        for (i, shard) in shards.iter().enumerate() {
            finish(&mut fabric, *shard, a, 10 + 10 * i as u64);
        }
        let level = level_of(&fabric, id);
        let mut outputs = [ObjectId::new(); 2];
        for (i, group) in order.iter().enumerate() {
            outputs[*group] =
                finish(&mut fabric, level[*group].task_id.unwrap(), a, 100 + 10 * i as u64);
        }
        assert_eq!(level_of(&fabric, id)[0].inputs, outputs.to_vec());
    }
}

#[test]
fn reductions_are_checked() {
    let fault = |change: &dyn Fn(&mut LogicalRoleSpec)| {
        let mut spec = job(2, Some(reduction(2, 1.0)));
        change(&mut spec.roles[0]);
        match validate_logical_job(&spec, &BTreeMap::new()) {
            Err(PlanError::InvalidLogicalJob(message)) => message,
            other => panic!("{other:?}"),
        }
    };
    assert_eq!(
        fault(&|role| role.shards = ShardPolicy::Fixed(1)),
        "role map declares a reduction but is not sharded"
    );
    assert_eq!(
        fault(&|role| role.reduction.as_mut().unwrap().name = String::new()),
        "role map has a reduction with an empty name"
    );
    assert_eq!(
        fault(&|role| {
            role.reduction.as_mut().unwrap().task.effects = EffectSemantics::Exclusive
        }),
        "role map reduction requires Pure effect semantics"
    );
    assert_eq!(
        fault(&|role| role.reduction.as_mut().unwrap().task.inputs.push(ObjectId::new())),
        "role map reduction cannot declare static inputs"
    );
    assert_eq!(
        fault(&|role| role.reduction.as_mut().unwrap().max_fan_in = 1),
        "role map reduction max_fan_in must be at least 2"
    );
    for locality in [-1.0, f64::NAN, f64::INFINITY] {
        assert_eq!(
            fault(&|role| role.reduction.as_mut().unwrap().locality_rtt_ms = binary(locality)),
            "role map reduction locality_rtt_ms must be finite and non-negative"
        );
    }
    assert_eq!(
        validate_logical_job(&job(2, Some(reduction(2, 0.0))), &BTreeMap::new()),
        Ok(())
    );
}

fn preview(
    spec: &LogicalJobSpec,
    resources: Vec<ResourceDescriptor>,
    links: Vec<LinkProfile>,
) -> Result<CooperativePlan, PlanError> {
    plan(
        spec,
        &TopologyAwareScheduler::default(),
        &resources,
        &BTreeMap::new(),
        &topology(links),
    )
}

#[test]
fn plans_predict_the_reducers() {
    let a = ResourceId::new();
    let spec = job(4, Some(reduction(2, 0.0)));
    let preview = preview(&spec, vec![machine(a, &[])], vec![]).unwrap();
    let map = &preview.roles[0];
    assert_eq!(map.shards.len(), 4);
    assert_eq!(number(map.shards[3].placement.finish_ms), 400.0);
    let places: Vec<(usize, usize, usize)> =
        map.reductions.iter().map(|r| (r.level, r.group, r.inputs)).collect();
    assert_eq!(places, vec![(0, 0, 2), (0, 1, 2), (1, 0, 2)]);
    let times: Vec<(f64, f64)> = map
        .reductions
        .iter()
        .map(|r| (number(r.placement.start_ms), number(r.placement.finish_ms)))
        .collect();
    assert_eq!(times, vec![(400.0, 410.0), (410.0, 420.0), (420.0, 430.0)]);
    assert!(map.reductions.iter().all(|r| r.implementation == "sum"));
    assert!(map.reductions.iter().all(|r| r.placement.resource_id == a));
    assert_eq!(number(preview.roles[1].shards[0].placement.start_ms), 430.0);
    assert_eq!(number(preview.estimated_makespan_ms), 431.0);
    assert!(preview.roles[1].reductions.is_empty());
}

#[test]
fn predicted_reducers_run_near_their_inputs() {
    let a = ResourceId::new();
    let b = ResourceId::new();
    let spec = job(2, Some(reduction(4, 0.0)));
    let preview =
        preview(&spec, vec![machine(a, &[]), machine(b, &[])], vec![link(a, b, 20.0)]).unwrap();
    let map = &preview.roles[0];
    assert_ne!(map.shards[0].placement.resource_id, map.shards[1].placement.resource_id);
    assert_eq!(map.reductions.len(), 1);
    let reducer = &map.reductions[0];
    assert_eq!((reducer.level, reducer.inputs), (0, 2));
    assert_eq!(number(reducer.placement.start_ms), 100.0);
    assert!(number(reducer.placement.input_transfer_ms) >= 20.0);
    assert_eq!(
        reducer.placement.finish_ms,
        preview.roles[1].shards[0].placement.start_ms
    );
}

#[test]
fn a_role_whose_reducer_nothing_runs_is_not_feasible() {
    let a = ResourceId::new();
    let mut folding = reduction(2, 0.0);
    folding.task = template(Some("fold"), 10.0);
    let spec = job(2, Some(folding));
    assert_eq!(
        preview(&spec, vec![machine(a, &[])], vec![]).map(|plan| plan.roles.len()),
        Err(PlanError::NoFeasibleImplementation("map".into()))
    );
    let preview = preview(&spec, vec![machine(a, &["fold"])], vec![]).unwrap();
    assert_eq!(preview.roles[0].reductions.len(), 1);
}

#[test]
fn roles_without_a_reduction_pass_on_every_contribution() {
    let a = ResourceId::new();
    let spec = job(3, None);
    let preview = preview(&spec, vec![machine(a, &[])], vec![]).unwrap();
    assert!(preview.roles[0].reductions.is_empty());
    assert_eq!(number(preview.estimated_makespan_ms), 301.0);
}

#[test]
fn a_reduction_comes_to_the_sum_of_all_contributions() {
    let a = ResourceId::new();
    let b = ResourceId::new();
    let mut fabric = with_members(&[a, b]);
    let mut folding = reduction(2, 0.0);
    folding.task.artifact = "builtin:sum-u64".into();
    let id = fabric.submit_logical_at(job(5, Some(folding)), 1).unwrap();
    let shards = shards_of(&fabric, id);
    let mut contents: BTreeMap<u128, Vec<u8>> = BTreeMap::new();
    let mut now = 10;
    for (i, shard) in shards.iter().enumerate() {
        let worker = if i < 2 { a } else { b };
        let object = finish(&mut fabric, *shard, worker, now);
        contents.insert(object.0, 10_u64.pow(i as u32).to_le_bytes().to_vec());
        now += 10;
    }
    loop {
        let level = match map_status(&fabric, id) {
            CooperativeRoleStatus::Reducing(groups) => groups,
            CooperativeRoleStatus::Completed(outputs) => {
                assert_eq!(outputs.len(), 1);
                assert_eq!(contents[&outputs[0].0], 11_111_u64.to_le_bytes().to_vec());
                break;
            }
            status => panic!("{status:?}"),
        };
        for group in level.iter().filter(|group| group.outputs.is_none()) {
            let task_id = group.task_id.unwrap();
            let task = fabric.task_spec(task_id).unwrap().clone();
            let inputs = task.inputs.iter().map(|input| contents[&input.0].clone()).collect();
            let sum = execute_task(&task, &inputs).unwrap();
            let object = finish(&mut fabric, task_id, a, now);
            contents.insert(object.0, sum);
            now += 10;
        }
    }
}
