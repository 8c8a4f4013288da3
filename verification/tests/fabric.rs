use plurifold::binary64::Binary64;
use plurifold::collections::NameSet;
use plurifold::fabric::Fabric;
use plurifold::ids::{ExecutionId, JobId, ObjectId, ResourceId, TaskId};
use plurifold::jobs::{
    default_role_shards, AutoShardPolicy, CooperativeJobSpec, CooperativeRoleSpec, LogicalJobSpec,
    LogicalRoleSpec, RoleImplementation, ShardPartitionSpec, ShardPolicy, ShardPolicySpec,
};
use plurifold::objects::ObjectMetadata;
use plurifold::resources::{Architecture, ResourceDescriptor, ResourceRequirements};
use plurifold::scheduler::ScheduleError;
use plurifold::status::{CooperativeJobStatus, CooperativeRoleStatus, FabricError, TaskStatus};
use plurifold::tasks::{
    CostHint, EffectSemantics, ExecutionLease, TaskShardPartition, TaskSpec, TaskTemplate,
};
use plurifold::topology::LinkProfile;

fn binary(x: f64) -> Binary64 {
    Binary64::from_bits(x.to_bits())
}

fn machine(id: ResourceId) -> ResourceDescriptor {
    ResourceDescriptor {
        id,
        epoch: 0,
        architecture: Architecture::X86_64,
        cpu_cores: 8,
        memory_bytes: 16 << 30,
        accelerators: vec![],
        features: NameSet::new(),
        performance_score: binary(1.0),
        queue_delay_ms: binary(0.0),
        startup_delay_ms: binary(0.0),
        failure_probability: binary(0.0),
    }
}

fn task(effects: EffectSemantics) -> TaskSpec {
    TaskSpec {
        id: TaskId::new(),
        artifact: "test".into(),
        entrypoint: "run".into(),
        arguments: vec![],
        inputs: vec![],
        requirements: ResourceRequirements::default(),
        effects,
        cost: CostHint::default(),
        shard: None,
        pipeline: None,
    }
}

fn template(effects: EffectSemantics, inputs: Vec<ObjectId>) -> TaskTemplate {
    TaskTemplate {
        artifact: "test".into(),
        entrypoint: "run".into(),
        arguments: vec![],
        inputs,
        requirements: ResourceRequirements::default(),
        effects,
        cost: CostHint { compute_ms_on_reference: binary(100.0), output_bytes: 4 },
    }
}

fn output(id: ObjectId, locations: Vec<ResourceId>, producer: Option<TaskId>) -> ObjectMetadata {
    ObjectMetadata {
        id,
        size_bytes: 4,
        digest: Some("sha256:x".into()),
        encoding: None,
        locations,
        producer,
    }
}

fn with_members(ids: &[ResourceId]) -> Fabric {
    let mut fabric = Fabric::new(10_000, 1_000);
    for id in ids {
        fabric.register_resource_at(machine(*id), 0);
    }
    fabric
}

/// Runs a task from its start at `now` to its end a moment later.
fn finish(fabric: &mut Fabric, task_id: TaskId, worker: ResourceId, now: u64) -> ObjectId {
    let lease = fabric.begin_execution_at(task_id, worker, now, ExecutionId::new()).unwrap();
    let id = ObjectId::new();
    fabric
        .complete_execution_at(&lease, vec![output(id, vec![worker], Some(task_id))], now + 1)
        .unwrap();
    id
}

fn logical(shards: ShardPolicy, effects: EffectSemantics, inputs: Vec<ObjectId>) -> LogicalJobSpec {
    LogicalJobSpec {
        id: JobId::new(),
        roles: vec![
            LogicalRoleSpec {
                reduction: None,
                name: "map".into(),
                implementations: vec![RoleImplementation {
                    name: "plain".into(),
                    task: template(effects, inputs),
                }],
                depends_on: vec![],
                shards,
            },
            LogicalRoleSpec {
                reduction: None,
                name: "join".into(),
                implementations: vec![RoleImplementation {
                    name: "plain".into(),
                    task: template(EffectSemantics::Pure, vec![]),
                }],
                depends_on: vec!["map".into()],
                shards: default_role_shards(),
            },
        ],
        outputs: vec!["join".into()],
    }
}

fn shard_tasks(fabric: &Fabric, job: JobId) -> Vec<TaskId> {
    let views = fabric.cooperative_role_views(job).unwrap();
    let map = views.iter().find(|role| role.name == "map").unwrap();
    match &map.status {
        CooperativeRoleStatus::Sharded(shards) => {
            shards.iter().map(|shard| shard.task_id).collect()
        }
        status => panic!("the role is not sharded: {status:?}"),
    }
}

#[test]
fn shards_fan_in_by_index_whatever_the_order_of_completion() {
    let worker = ResourceId::new();
    let mut fabric = with_members(&[worker]);
    let job = fabric
        .submit_logical_at(logical(ShardPolicy::Fixed(3), EffectSemantics::Pure, vec![]), 1)
        .unwrap();
    let tasks = shard_tasks(&fabric, job);
    assert_eq!(tasks.len(), 3);
    for (index, id) in tasks.iter().enumerate() {
        let shard = fabric.task_spec(*id).unwrap().shard.unwrap();
        assert_eq!((shard.index, shard.count, shard.partition), (index as u32, 3, None));
    }
    let third = finish(&mut fabric, tasks[2], worker, 10);
    let first = finish(&mut fabric, tasks[0], worker, 20);
    let views = fabric.cooperative_role_views(job).unwrap();
    assert_eq!(
        views.iter().find(|role| role.name == "join").unwrap().status,
        CooperativeRoleStatus::Waiting
    );
    let second = finish(&mut fabric, tasks[1], worker, 30);
    let views = fabric.cooperative_role_views(job).unwrap();
    assert_eq!(
        views.iter().find(|role| role.name == "map").unwrap().status,
        CooperativeRoleStatus::Completed(vec![first, second, third])
    );
    let join = fabric.pending_task_ids();
    assert_eq!(join.len(), 1);
    assert_eq!(fabric.task_spec(join[0]).unwrap().inputs, vec![first, second, third]);
    let end = finish(&mut fabric, join[0], worker, 40);
    assert_eq!(
        fabric.cooperative_job_status(job),
        Some(CooperativeJobStatus::Completed(vec![end]))
    );
}

#[test]
fn four_shards_fan_in_by_index_in_every_order() {
    for number in 0..24 {
        let mut left = vec![0, 1, 2, 3];
        let mut rest: usize = number;
        let mut order: Vec<usize> = vec![];
        while !left.is_empty() {
            let at = rest % left.len();
            rest /= left.len();
            order.push(left.remove(at));
        }
        let worker = ResourceId::new();
        let mut fabric = with_members(&[worker]);
        let job = fabric
            .submit_logical_at(logical(ShardPolicy::Fixed(4), EffectSemantics::Pure, vec![]), 1)
            .unwrap();
        let tasks = shard_tasks(&fabric, job);
        let mut outputs = vec![None; 4];
        for (step, index) in order.iter().enumerate() {
            assert_eq!(shard_tasks(&fabric, job), tasks);
            outputs[*index] =
                Some(finish(&mut fabric, tasks[*index], worker, 10 * (step as u64 + 1)));
        }
        let outputs: Vec<ObjectId> = outputs.into_iter().map(|id| id.unwrap()).collect();
        let views = fabric.cooperative_role_views(job).unwrap();
        assert_eq!(views[0].status, CooperativeRoleStatus::Completed(outputs));
    }
}

#[test]
fn ready_roles_are_set_to_work_once() {
    let mut job = logical(ShardPolicy::Fixed(2), EffectSemantics::Pure, vec![]);
    let mut large = job.roles[0].clone();
    large.name = "large".into();
    large.shards = default_role_shards();
    large.implementations[0].task.requirements.min_memory_bytes = 64 << 30;
    job.roles.push(large);
    let mut fabric = with_members(&[ResourceId::new()]);
    let job = fabric.submit_logical_at(job, 1).unwrap();
    let tasks = fabric.pending_task_ids();
    let views = fabric.cooperative_role_views(job).unwrap();
    assert_eq!(tasks.len(), 2);
    assert_eq!(views[1].status, CooperativeRoleStatus::Waiting);
    assert_eq!(views[2].status, CooperativeRoleStatus::Ready);
    for _ in 0..2 {
        fabric.refresh_ready_roles_at(1).unwrap();
        assert_eq!(fabric.pending_task_ids(), tasks);
        assert_eq!(fabric.cooperative_role_views(job).unwrap(), views);
        fabric.materialize_ready_roles(job, 1).unwrap();
        assert_eq!(fabric.pending_task_ids(), tasks);
        assert_eq!(fabric.cooperative_role_views(job).unwrap(), views);
    }
    let unknown = JobId::new();
    assert_eq!(
        fabric.materialize_ready_roles(unknown, 1),
        Err(FabricError::UnknownJob(unknown))
    );
}

#[test]
fn automatic_shards_run_on_their_byte_ranges() {
    let a = ResourceId::new();
    let b = ResourceId::new();
    let mut fabric = with_members(&[a, b]);
    let input = ObjectId::new();
    let mut whole = output(input, vec![a, b], None);
    whole.size_bytes = 11;
    fabric.publish_object(whole).unwrap();
    let policy = ShardPolicy::Policy(ShardPolicySpec::Auto(AutoShardPolicy {
        max_shards: 2,
        partition: ShardPartitionSpec::ByteRange { input: 0 },
        per_shard_overhead_ms: binary(0.0),
        min_gain_ratio: binary(0.05),
    }));
    let job = fabric
        .submit_logical_at(logical(policy, EffectSemantics::Pure, vec![input]), 1)
        .unwrap();
    let tasks = shard_tasks(&fabric, job);
    assert_eq!(tasks.len(), 2);
    assert_eq!(
        fabric.task_spec(tasks[0]).unwrap().input_byte_range(0),
        Some((0, 5))
    );
    assert_eq!(
        fabric.task_spec(tasks[1]).unwrap().shard.unwrap().partition,
        Some(TaskShardPartition::ByteRange { input: 0, offset: 5, length: 6, total_bytes: 11 })
    );
    let views = fabric.cooperative_role_views(job).unwrap();
    let map = views.iter().find(|role| role.name == "map").unwrap();
    assert_eq!(map.shards.len(), 2);
    assert_eq!(map.shards[1].task_id, tasks[1]);
    assert_ne!(map.shards[0].planned_resource, map.shards[1].planned_resource);
}

#[test]
fn a_lost_exclusive_shard_makes_the_job_uncertain() {
    let worker = ResourceId::new();
    let mut fabric = with_members(&[worker]);
    let job = fabric
        .submit_logical_at(logical(ShardPolicy::Fixed(2), EffectSemantics::Exclusive, vec![]), 1)
        .unwrap();
    let tasks = shard_tasks(&fabric, job);
    let lease = fabric.begin_execution_at(tasks[1], worker, 10, ExecutionId::new()).unwrap();
    assert_eq!(
        fabric.reap_expired_executions_at(lease.expires_at_unix_ms),
        vec![tasks[1]]
    );
    assert_eq!(fabric.cooperative_job_status(job), Some(CooperativeJobStatus::Uncertain));
    assert_eq!(fabric.task_status(tasks[0]), Some(&TaskStatus::Pending));
}

#[test]
fn a_lost_pure_shard_is_run_again() {
    let worker = ResourceId::new();
    let mut fabric = with_members(&[worker]);
    let job = fabric
        .submit_logical_at(logical(ShardPolicy::Fixed(2), EffectSemantics::Pure, vec![]), 1)
        .unwrap();
    let tasks = shard_tasks(&fabric, job);
    let first = finish(&mut fabric, tasks[0], worker, 5);
    let lease = fabric.begin_execution_at(tasks[1], worker, 10, ExecutionId::new()).unwrap();
    fabric.reap_expired_executions_at(lease.expires_at_unix_ms);
    assert_eq!(fabric.task_status(tasks[1]), Some(&TaskStatus::Pending));
    assert_eq!(fabric.task_status(tasks[0]), Some(&TaskStatus::Completed(vec![first])));
    let second = finish(&mut fabric, tasks[1], worker, 2_000);
    let views = fabric.cooperative_role_views(job).unwrap();
    assert_eq!(
        views.iter().find(|role| role.name == "map").unwrap().status,
        CooperativeRoleStatus::Completed(vec![first, second])
    );
}

#[test]
fn shards_wait_for_a_resource() {
    let mut fabric = Fabric::new(10_000, 1_000);
    let job = fabric
        .submit_logical_at(logical(ShardPolicy::Fixed(2), EffectSemantics::Pure, vec![]), 1)
        .unwrap();
    let views = fabric.cooperative_role_views(job).unwrap();
    assert_eq!(views[0].status, CooperativeRoleStatus::Ready);
    fabric.register_resource_at(machine(ResourceId::new()), 2);
    fabric.refresh_ready_roles_at(3).unwrap();
    assert_eq!(shard_tasks(&fabric, job).len(), 2);
}

#[test]
fn new_incarnations_have_later_epochs() {
    let id = ResourceId::new();
    let mut fabric = Fabric::new(100, 100);
    assert!(fabric.can_register(&machine(id)));
    let first = fabric.register_resource_at(machine(id), 0);
    let second = fabric.register_resource_at(machine(id), 1);
    assert_eq!((first.epoch, second.epoch), (1, 2));
    assert_eq!(second.expires_at_unix_ms, 101);
    let mut remembered = machine(ResourceId::new());
    remembered.epoch = 41;
    assert_eq!(fabric.register_resource_at(remembered, 1).epoch, 41);
    let mut last = machine(ResourceId::new());
    last.epoch = u64::MAX;
    fabric.register_resource_at(last.clone(), 1);
    assert!(!fabric.can_register(&last));
}

#[test]
fn a_resource_that_returns_has_a_later_epoch() {
    let worker = ResourceId::new();
    let mut fabric = Fabric::new(10_000, 60_000);
    let first = fabric.register_resource_at(machine(worker), 1_000);
    assert_eq!(first.epoch, 1);
    let id = fabric.submit(task(EffectSemantics::Exclusive)).unwrap();
    let lease = fabric.begin_execution_at(id, worker, 2_000, ExecutionId::new()).unwrap();
    fabric.unregister_resource(worker);
    let second = fabric.register_resource_at(machine(worker), 20_000);
    assert_eq!(second.epoch, 2);
    assert_eq!(
        fabric.complete_execution_at(&lease, vec![], 20_001),
        Err(FabricError::StaleResourceEpoch(worker))
    );
    assert_eq!(
        fabric.renew_execution_at(&lease, 20_001).map(|lease| lease.resource_epoch),
        Err(FabricError::StaleResourceEpoch(worker))
    );
    assert_eq!(fabric.task_status(id), Some(&TaskStatus::Running(lease)));
    assert_eq!(fabric.expire_resources_at(30_000), vec![worker]);
    assert_eq!(fabric.register_resource_at(machine(worker), 31_000).epoch, 3);
    let mut last = machine(ResourceId::new());
    last.epoch = u64::MAX;
    fabric.register_resource_at(last.clone(), 31_000);
    fabric.unregister_resource(last.id);
    assert!(!fabric.can_register(&last));
}

#[test]
fn jobs_on_records_need_the_published_object() {
    let worker = ResourceId::new();
    let mut fabric = with_members(&[worker]);
    let input = ObjectId::new();
    let records = ShardPolicy::Policy(ShardPolicySpec::Auto(AutoShardPolicy {
        max_shards: 2,
        partition: ShardPartitionSpec::Records { input: 0, offsets: vec![0, 2, 4] },
        per_shard_overhead_ms: binary(0.0),
        min_gain_ratio: binary(0.0),
    }));
    let work = logical(records, EffectSemantics::Pure, vec![input]);
    let refusal = FabricError::InvalidLogicalJob(
        "role map record offsets must end at the size of a published Object".into(),
    );
    assert_eq!(fabric.submit_logical_at(work.clone(), 1), Err(refusal));
    assert_eq!(fabric.cooperative_job_status(work.id), None);
    fabric.publish_object(output(input, vec![worker], None)).unwrap();
    assert_eq!(fabric.submit_logical_at(work.clone(), 1), Ok(work.id));
}

#[test]
fn memberships_end_when_they_expire() {
    let id = ResourceId::new();
    let mut fabric = Fabric::new(100, 100);
    fabric.register_resource_at(machine(id), 0);
    assert_eq!(fabric.active_resource_count_at(99), 1);
    assert_eq!(fabric.active_resource_count_at(100), 0);
    assert_eq!(
        fabric.heartbeat_at(id, 2, 50).map(|lease| lease.epoch),
        Err(FabricError::StaleResourceEpoch(id))
    );
    assert_eq!(fabric.heartbeat_at(id, 1, 50).unwrap().expires_at_unix_ms, 150);
    assert_eq!(fabric.expire_resources_at(150), vec![id]);
    assert_eq!(fabric.active_resources_at(120).len(), 0);
    assert_eq!(
        fabric.heartbeat_at(id, 1, 120).map(|lease| lease.epoch),
        Err(FabricError::ResourceNotActive(id))
    );
}

#[test]
fn departures_are_local() {
    let gone = ResourceId::new();
    let kept = ResourceId::new();
    let mut fabric = with_members(&[gone, kept]);
    let object = ObjectId::new();
    fabric.publish_object(output(object, vec![gone, kept], None)).unwrap();
    fabric.upsert_link(LinkProfile {
        from: gone,
        to: kept,
        rtt_ms: binary(1.0),
        bandwidth_mbps: binary(1.0),
    });
    fabric.unregister_resource(gone);
    assert_eq!(fabric.object_metadata(object).unwrap().locations, vec![kept]);
    assert!(fabric.topology().links.is_empty());
    assert_eq!(fabric.resource_epoch_at(kept, 1), Some(1));
    assert_eq!(fabric.resource_epoch_at(gone, 1), None);
}

#[test]
fn links_are_replaced_and_removed() {
    let a = ResourceId::new();
    let b = ResourceId::new();
    let mut fabric = with_members(&[a, b]);
    let link = |from, to, rtt: f64| LinkProfile {
        from,
        to,
        rtt_ms: binary(rtt),
        bandwidth_mbps: binary(10.0),
    };
    fabric.upsert_link(link(a, b, 1.0));
    fabric.upsert_link(link(b, a, 2.0));
    assert_eq!(fabric.topology().links, vec![link(b, a, 2.0)]);
    fabric.remove_link(a, b);
    assert!(fabric.topology().links.is_empty());
}

#[test]
fn one_attempt_at_a_time_may_commit() {
    let worker = ResourceId::new();
    let other = ResourceId::new();
    let mut fabric = with_members(&[worker, other]);
    let spec = task(EffectSemantics::Pure);
    let id = spec.id;
    fabric.submit(spec.clone()).unwrap();
    assert_eq!(fabric.submit(spec), Err(FabricError::DuplicateTask(id)));
    let lease = fabric.begin_execution_at(id, worker, 10, ExecutionId::new()).unwrap();
    assert_eq!(lease.expires_at_unix_ms, 1_010);
    assert_eq!(
        fabric.begin_execution_at(id, other, 11, ExecutionId::new()),
        Err(FabricError::TaskNotPending(id))
    );
    let shown = ExecutionLease { expires_at_unix_ms: 5, ..lease };
    assert_eq!(fabric.renew_execution_at(&shown, 1_000).unwrap().expires_at_unix_ms, 2_000);
    assert_eq!(
        fabric.complete_execution_at(&lease, vec![], 2_000),
        Err(FabricError::ExecutionExpired)
    );
    fabric.reap_expired_executions_at(2_000);
    let again = fabric.begin_execution_at(id, other, 2_001, ExecutionId::new()).unwrap();
    assert_eq!(
        fabric.complete_execution_at(&lease, vec![], 2_002),
        Err(FabricError::StaleExecution)
    );
    let result = ObjectId::new();
    fabric
        .complete_execution_at(&again, vec![output(result, vec![other], Some(id))], 2_003)
        .unwrap();
    assert_eq!(
        fabric.complete_execution_at(&again, vec![], 2_004),
        Err(FabricError::StaleExecution)
    );
    fabric.register_resource_at(machine(other), 2_005);
    assert_eq!(
        fabric.complete_execution_at(&again, vec![], 2_006),
        Err(FabricError::StaleResourceEpoch(other))
    );
    fabric.unregister_resource(other);
    assert_eq!(
        fabric.complete_execution_at(&again, vec![], 2_007),
        Err(FabricError::ResourceNotActive(other))
    );
    assert_eq!(fabric.task_status(id), Some(&TaskStatus::Completed(vec![result])));
}

#[test]
fn refusals_change_nothing() {
    let worker = ResourceId::new();
    let mut fabric = with_members(&[worker]);
    let unknown = TaskId::new();
    assert_eq!(
        fabric.begin_execution_at(unknown, worker, 1, ExecutionId::new()),
        Err(FabricError::UnknownTask(unknown))
    );
    let stranger = ResourceId::new();
    let spec = task(EffectSemantics::Pure);
    let id = spec.id;
    fabric.submit(spec).unwrap();
    assert_eq!(
        fabric.begin_execution_at(id, stranger, 1, ExecutionId::new()),
        Err(FabricError::ResourceNotActive(stranger))
    );
    assert_eq!(fabric.task_status(id), Some(&TaskStatus::Pending));
    let nowhere = ObjectId::new();
    assert_eq!(
        fabric.add_object_location(nowhere, worker),
        Err(FabricError::UnknownObject(nowhere))
    );
}

#[test]
fn publication_only_adds_locations() {
    let a = ResourceId::new();
    let b = ResourceId::new();
    let mut fabric = with_members(&[a, b]);
    let id = ObjectId::new();
    fabric.publish_object(output(id, vec![a], None)).unwrap();
    fabric.publish_object(output(id, vec![b, a], None)).unwrap();
    assert_eq!(fabric.object_metadata(id).unwrap().locations, vec![a, b]);
    fabric.add_object_location(id, b).unwrap();
    assert_eq!(fabric.object_metadata(id).unwrap().locations, vec![a, b]);
}

#[test]
fn conflicting_outputs_leave_the_task_running() {
    let worker = ResourceId::new();
    let mut fabric = with_members(&[worker]);
    let id = ObjectId::new();
    fabric.publish_object(output(id, vec![worker], None)).unwrap();
    let spec = task(EffectSemantics::Pure);
    let task_id = spec.id;
    fabric.submit(spec).unwrap();
    let lease = fabric.begin_execution_at(task_id, worker, 1, ExecutionId::new()).unwrap();
    let mut other = output(id, vec![worker], None);
    other.size_bytes = 9;
    let fresh = ObjectId::new();
    assert_eq!(
        fabric.complete_execution_at(&lease, vec![output(fresh, vec![], None), other], 2),
        Err(FabricError::ObjectConflict(id))
    );
    assert!(matches!(fabric.task_status(task_id), Some(TaskStatus::Running(_))));
    assert_eq!(fabric.object_metadata(fresh), None);
}

#[test]
fn tasks_are_scheduled_on_active_members() {
    let worker = ResourceId::new();
    let mut fabric = with_members(&[worker]);
    let mut spec = task(EffectSemantics::Pure);
    let id = spec.id;
    let missing = ObjectId::new();
    spec.inputs = vec![missing];
    fabric.submit(spec).unwrap();
    assert_eq!(
        fabric.schedule_task_at(id, 1),
        Err(FabricError::Scheduling(ScheduleError::MissingObject(missing)))
    );
    fabric.publish_object(output(missing, vec![worker], None)).unwrap();
    assert_eq!(fabric.schedule_task_at(id, 1).unwrap().resource_id, worker);
    assert_eq!(
        fabric.schedule_task_at(id, 10_000),
        Err(FabricError::Scheduling(ScheduleError::NoCandidate))
    );
    let unknown = TaskId::new();
    assert_eq!(fabric.schedule_task_at(unknown, 1), Err(FabricError::UnknownTask(unknown)));
}

#[test]
fn refused_jobs_change_nothing() {
    let mut fabric = with_members(&[ResourceId::new()]);
    let job = CooperativeJobSpec {
        id: JobId::new(),
        roles: vec![CooperativeRoleSpec {
            name: "root".into(),
            task: template(EffectSemantics::Pure, vec![]),
            depends_on: vec![],
        }],
        outputs: vec!["root".into()],
    };
    fabric.submit_cooperative_at(job.clone(), 1).unwrap();
    assert_eq!(
        fabric.submit_cooperative_at(job.clone(), 1),
        Err(FabricError::DuplicateJob(job.id))
    );
    assert_eq!(fabric.pending_task_ids().len(), 1);
    let mut doubled = logical(default_role_shards(), EffectSemantics::Pure, vec![]);
    doubled.id = job.id;
    assert_eq!(fabric.submit_logical_at(doubled, 1), Err(FabricError::DuplicateJob(job.id)));
    let mut invalid = logical(default_role_shards(), EffectSemantics::Pure, vec![]);
    invalid.outputs = vec![];
    let id = invalid.id;
    assert_eq!(
        fabric.submit_logical_at(invalid, 1),
        Err(FabricError::InvalidLogicalJob("at least one output role is required".into()))
    );
    assert_eq!(fabric.cooperative_job_status(id), None);
    assert_eq!(fabric.pending_task_ids().len(), 1);
}

#[test]
fn fabric_errors_are_described() {
    let id = TaskId(1);
    let name = id.text();
    let resource = ResourceId(1);
    let object = ObjectId(1);
    let job = JobId(1);
    let said = |error: FabricError| error.message();
    assert_eq!(
        said(FabricError::ResourceNotActive(resource)),
        format!("resource {name} is not active")
    );
    assert_eq!(
        said(FabricError::StaleResourceEpoch(resource)),
        format!("resource {name} epoch does not match current incarnation")
    );
    assert_eq!(said(FabricError::UnknownTask(id)), format!("task {name} does not exist"));
    assert_eq!(said(FabricError::UnknownObject(object)), format!("object {name} does not exist"));
    assert_eq!(
        said(FabricError::ObjectConflict(object)),
        format!("object {name} conflicts with already published metadata")
    );
    assert_eq!(said(FabricError::DuplicateTask(id)), format!("task {name} already exists"));
    assert_eq!(said(FabricError::InvalidTask("x".into())), "invalid task: x");
    assert_eq!(
        said(FabricError::UnknownJob(job)),
        format!("cooperative job {name} does not exist")
    );
    assert_eq!(
        said(FabricError::DuplicateJob(job)),
        format!("cooperative job {name} already exists")
    );
    assert_eq!(
        said(FabricError::InvalidCooperativeJob("x".into())),
        "invalid cooperative job: x"
    );
    assert_eq!(said(FabricError::InvalidLogicalJob("x".into())), "invalid logical job: x");
    assert_eq!(said(FabricError::TaskNotPending(id)), format!("task {name} is not pending"));
    assert_eq!(
        said(FabricError::StaleExecution),
        "execution lease is stale or does not own the task"
    );
    assert_eq!(said(FabricError::ExecutionExpired), "execution lease has expired");
    assert_eq!(
        said(FabricError::Scheduling(ScheduleError::NoCandidate)),
        "no compatible resource has reachable inputs"
    );
}
