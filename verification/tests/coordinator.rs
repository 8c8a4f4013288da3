use plurifold::binary64::Binary64;
use plurifold::collections::NameSet;
use plurifold::coordinator::{normalize_endpoint, ApiError, Coordinator};
use plurifold::ids::{JobId, ObjectId, ResourceId, TaskId};
use plurifold::jobs::{
    default_role_shards, CooperativeJobSpec, CooperativeRoleSpec, JobDefinition, LogicalJobSpec,
    LogicalRoleSpec, RoleImplementation,
};
use plurifold::objects::ObjectMetadata;
use plurifold::protocol::{
    CompleteExecutionRequest, HeartbeatRequest, LinkMeasurement, LinkUpdateRequest,
    PlanLogicalJobRequest, PublishObjectRequest, RegisterReplicaRequest, RegisterResourceRequest,
    RenewExecutionRequest, ReportLinkMeasurementRequest, SubmitCooperativeJobRequest,
    SubmitTaskRequest, WorkPollRequest, API_VERSION,
};
use plurifold::resources::{Architecture, ResourceDescriptor, ResourceRequirements};
use plurifold::scheduler::ScheduleError;
use plurifold::status::{CooperativeJobStatus, CooperativeRoleStatus, FabricError, TaskStatus};
use plurifold::tasks::{CostHint, EffectSemantics, TaskSpec, TaskTemplate};
use plurifold::topology::LinkProfile;
use plurifold::validation::PlanError;

const DIGITS: &str = "0000000000000000000000000000000000000000000000000000000000000000";

fn binary(x: f64) -> Binary64 {
    Binary64::from_bits(x.to_bits())
}

fn machine(id: ResourceId, feature: &str) -> ResourceDescriptor {
    ResourceDescriptor {
        id,
        epoch: 0,
        architecture: Architecture::X86_64,
        cpu_cores: 8,
        memory_bytes: 16 << 30,
        accelerators: vec![],
        features: NameSet::from_list(vec![feature.to_owned()]),
        performance_score: binary(1.0),
        queue_delay_ms: binary(0.0),
        startup_delay_ms: binary(0.0),
        failure_probability: binary(0.0),
    }
}

fn join(coordinator: &mut Coordinator, id: ResourceId, now: u64) -> u64 {
    coordinator
        .register_resource(
            RegisterResourceRequest {
                descriptor: machine(id, "any"),
                data_endpoint: format!(" http://host-{}/ ", id.0),
            },
            now,
        )
        .unwrap()
        .lease
        .epoch
}

fn work(inputs: Vec<ObjectId>) -> TaskSpec {
    TaskSpec {
        id: TaskId::new(),
        artifact: "builtin:echo".into(),
        entrypoint: "run".into(),
        arguments: vec![],
        inputs,
        requirements: ResourceRequirements::default(),
        effects: EffectSemantics::Pure,
        cost: CostHint::default(),
        shard: None,
        pipeline: None,
    }
}

fn object(id: ObjectId, locations: Vec<ResourceId>) -> ObjectMetadata {
    ObjectMetadata {
        id,
        size_bytes: 5,
        digest: Some(format!("sha256:{DIGITS}")),
        encoding: None,
        locations,
        producer: None,
    }
}

fn refused<T: std::fmt::Debug>(answer: Result<T, ApiError>) -> (u16, String) {
    let error = answer.unwrap_err();
    (error.status, error.message)
}

#[test]
fn endpoints_are_normalized() {
    assert_eq!(normalize_endpoint(" http://a:1// ").unwrap(), "http://a:1");
    assert_eq!(normalize_endpoint("https://b").unwrap(), "https://b");
    assert_eq!(
        refused(normalize_endpoint("ftp://c")),
        (400, "data_endpoint must be an http:// or https:// URL".to_owned())
    );
    assert_eq!(refused(normalize_endpoint("")).0, 400);
}

#[test]
fn addresses_are_checked_before_epochs() {
    let mut coordinator = Coordinator::new(1_000, 1_000);
    let mut last = machine(ResourceId(5), "any");
    last.epoch = u64::MAX;
    let request = |endpoint: &str| RegisterResourceRequest {
        descriptor: last.clone(),
        data_endpoint: endpoint.into(),
    };
    coordinator.register_resource(request("http://host"), 1).unwrap();
    assert!(!coordinator.fabric().can_register(&last));
    assert_eq!(refused(coordinator.register_resource(request("ftp://host"), 2)).0, 400);
}

#[test]
fn members_are_listed_with_their_endpoints() {
    let mut coordinator = Coordinator::new(1_000, 1_000);
    let id = ResourceId(5);
    assert_eq!(join(&mut coordinator, id, 10), 1);
    let listed = coordinator.list_resources(500).resources;
    assert_eq!(listed.len(), 1);
    assert_eq!(listed[0].descriptor.id, id);
    assert_eq!(listed[0].data_endpoint.as_deref(), Some("http://host-5"));
    assert!(coordinator.list_resources(1_010).resources.is_empty());
    assert_eq!(coordinator.fabric().resource_epoch_at(id, 500), Some(1));
}

#[test]
fn heartbeats_keep_the_current_incarnation_only() {
    let mut coordinator = Coordinator::new(1_000, 1_000);
    let id = ResourceId(5);
    let epoch = join(&mut coordinator, id, 0);
    let lease = coordinator.heartbeat(HeartbeatRequest { resource_id: id, epoch }, 900).unwrap();
    assert_eq!(lease.expires_at_unix_ms, 1_900);
    assert_eq!(join(&mut coordinator, id, 950), 2);
    assert_eq!(
        refused(coordinator.heartbeat(HeartbeatRequest { resource_id: id, epoch }, 960)).0,
        409
    );
    assert_eq!(
        refused(coordinator.heartbeat(
            HeartbeatRequest { resource_id: ResourceId(6), epoch: 1 },
            960
        ))
        .0,
        404
    );
}

#[test]
fn work_is_assigned_with_the_replicas_of_its_inputs() {
    let mut coordinator = Coordinator::new(1_000, 1_000);
    let id = ResourceId(5);
    let other = ResourceId(6);
    let epoch = join(&mut coordinator, id, 0);
    let input = ObjectId::new();
    coordinator
        .publish_object(PublishObjectRequest { object: object(input, vec![other, id]) })
        .unwrap();
    let task = work(vec![input]);
    let task_id = task.id;
    assert_eq!(
        coordinator.submit_task(SubmitTaskRequest { task }).unwrap().task_id,
        task_id
    );
    let request = WorkPollRequest { resource_id: id, epoch };
    let assignment = coordinator.poll_work(request, 100).unwrap().assignment.unwrap();
    assert_eq!(assignment.task.id, task_id);
    assert_eq!(assignment.inputs.len(), 1);
    assert_eq!(assignment.inputs[0].replicas.len(), 1);
    assert_eq!(assignment.inputs[0].replicas[0].resource_id, id);
    assert_eq!(
        assignment.inputs[0].replicas[0].url,
        format!("http://host-5/v1/blobs/{DIGITS}")
    );
    assert_eq!(assignment.lease.expires_at_unix_ms, 1_100);
    assert!(coordinator.poll_work(request, 101).unwrap().assignment.is_none());

    let renewed = coordinator
        .renew_execution(RenewExecutionRequest { lease: assignment.lease }, 600)
        .unwrap();
    assert_eq!(renewed.expires_at_unix_ms, 1_600);
    let output = object(ObjectId::new(), vec![id]);
    coordinator
        .complete_execution(
            CompleteExecutionRequest { lease: assignment.lease, outputs: vec![output.clone()] },
            700,
        )
        .unwrap();
    assert_eq!(
        coordinator.get_task(&task_id.text()).unwrap().status,
        TaskStatus::Completed(vec![output.id])
    );
    assert_eq!(
        refused(coordinator.complete_execution(
            CompleteExecutionRequest { lease: assignment.lease, outputs: vec![] },
            701,
        ))
        .0,
        409
    );
}

#[test]
fn polls_are_answered_to_current_members_only() {
    let mut coordinator = Coordinator::new(1_000, 1_000);
    let id = ResourceId(5);
    let epoch = join(&mut coordinator, id, 0);
    assert_eq!(
        refused(coordinator.poll_work(WorkPollRequest { resource_id: id, epoch }, 1_000)),
        (404, "resource is not active".to_owned())
    );
    join(&mut coordinator, id, 10);
    assert_eq!(
        refused(coordinator.poll_work(WorkPollRequest { resource_id: id, epoch }, 20)),
        (409, "resource epoch is stale".to_owned())
    );
}

#[test]
fn unreachable_inputs_refuse_the_poll() {
    let id = ResourceId(5);
    let input = ObjectId::new();
    let name = input.text();
    let poll = |digest: Option<&str>| {
        let mut coordinator = Coordinator::new(1_000, 1_000);
        let epoch = join(&mut coordinator, id, 0);
        let mut fresh = object(input, vec![id]);
        fresh.digest = digest.map(|text| text.to_owned());
        coordinator.publish_object(PublishObjectRequest { object: fresh })?;
        coordinator.submit_task(SubmitTaskRequest { task: work(vec![input]) })?;
        coordinator.poll_work(WorkPollRequest { resource_id: id, epoch }, 1)
    };
    assert_eq!(
        refused(poll(None)),
        (400, "published objects require a digest".to_owned())
    );
    assert_eq!(refused(poll(Some("md5:1"))), (409, "unsupported digest md5:1".to_owned()));

    let mut coordinator = Coordinator::new(1_000, 1_000);
    coordinator
        .publish_object(PublishObjectRequest { object: object(input, vec![id]) })
        .unwrap();
    assert_eq!(
        refused(coordinator.resolve_inputs(&vec![input])),
        (409, format!("object {name} has no reachable registered replica"))
    );
    let unknown = ObjectId::new();
    assert_eq!(
        refused(coordinator.resolve_inputs(&vec![unknown])),
        (404, format!("unknown object {}", unknown.text()))
    );
}

#[test]
fn replicas_are_reachable_holders() {
    let mut coordinator = Coordinator::new(1_000, 1_000);
    let first = ResourceId(1);
    let second = ResourceId(2);
    join(&mut coordinator, first, 0);
    let input = ObjectId::new();
    coordinator
        .publish_object(PublishObjectRequest { object: object(input, vec![first]) })
        .unwrap();
    let request = RegisterReplicaRequest { object_id: input, resource_id: second };
    assert_eq!(
        refused(coordinator.register_replica(request, 1)),
        (404, "replica resource is not active".to_owned())
    );
    join(&mut coordinator, second, 0);
    coordinator.register_replica(request, 1).unwrap();
    let resolved = coordinator.resolve_inputs(&vec![input]).unwrap();
    let holders: Vec<ResourceId> =
        resolved[0].replicas.iter().map(|replica| replica.resource_id).collect();
    assert_eq!(holders, vec![first, second]);
    let missing = RegisterReplicaRequest { object_id: ObjectId::new(), resource_id: second };
    assert_eq!(refused(coordinator.register_replica(missing, 1)).0, 404);
}

#[test]
fn tasks_and_jobs_are_found_by_their_names() {
    let coordinator = Coordinator::new(1_000, 1_000);
    assert_eq!(
        refused(coordinator.get_task("nonsense")),
        (400, "task_id is not a valid UUID".to_owned())
    );
    assert_eq!(
        refused(coordinator.get_task(&TaskId::new().text())),
        (404, "task not found".to_owned())
    );
    assert_eq!(
        refused(coordinator.get_job("nonsense")),
        (400, "job_id is not a valid UUID".to_owned())
    );
    assert_eq!(
        refused(coordinator.get_job(&JobId::new().text())),
        (404, "job not found".to_owned())
    );
}

fn template(feature: &str) -> TaskTemplate {
    TaskTemplate {
        artifact: "builtin:echo".into(),
        entrypoint: "run".into(),
        arguments: vec![],
        inputs: vec![],
        requirements: ResourceRequirements {
            required_features: NameSet::from_list(vec![feature.to_owned()]),
            ..ResourceRequirements::default()
        },
        effects: EffectSemantics::Pure,
        cost: CostHint::default(),
    }
}

fn logical(feature: &str) -> LogicalJobSpec {
    LogicalJobSpec {
        id: JobId::new(),
        roles: vec![LogicalRoleSpec {
            reduction: None,
            name: "only".into(),
            implementations: vec![RoleImplementation {
                name: "plain".into(),
                task: template(feature),
            }],
            depends_on: vec![],
            shards: default_role_shards(),
        }],
        outputs: vec!["only".into()],
    }
}

#[test]
fn jobs_are_shown_with_their_roles() {
    let mut coordinator = Coordinator::new(1_000, 1_000);
    let job = CooperativeJobSpec {
        id: JobId::new(),
        roles: vec![CooperativeRoleSpec {
            name: "root".into(),
            task: template("any"),
            depends_on: vec![],
        }],
        outputs: vec!["root".into()],
    };
    let request = SubmitCooperativeJobRequest { job: job.clone() };
    assert_eq!(coordinator.submit_cooperative_job(request.clone(), 0).unwrap().job_id, job.id);
    let view = coordinator.get_job(&job.id.text()).unwrap();
    assert_eq!(view.job, JobDefinition::Cooperative(job.clone()));
    assert_eq!(view.status, CooperativeJobStatus::Running);
    assert_eq!(view.roles.len(), 1);
    assert!(matches!(view.roles[0].status, CooperativeRoleStatus::Submitted(_)));
    assert_eq!(refused(coordinator.submit_cooperative_job(request, 0)).0, 409);
    let empty = CooperativeJobSpec { id: JobId::new(), roles: vec![], outputs: vec![] };
    assert_eq!(
        refused(coordinator.submit_cooperative_job(SubmitCooperativeJobRequest { job: empty }, 0)).0,
        400
    );
}

#[test]
fn logical_jobs_are_planned_or_kept_until_they_can_be() {
    let mut coordinator = Coordinator::new(1_000, 1_000);
    let id = ResourceId(3);
    let epoch = join(&mut coordinator, id, 0);
    let plan = coordinator
        .plan_logical_job(&PlanLogicalJobRequest { job: logical("any") }, 1)
        .unwrap();
    assert_eq!(plan.roles[0].shards[0].placement.resource_id, id);
    let impossible = logical("missing");
    assert_eq!(
        refused(coordinator.plan_logical_job(&PlanLogicalJobRequest { job: impossible.clone() }, 1)).0,
        422
    );
    let kept = coordinator
        .submit_logical_job(PlanLogicalJobRequest { job: impossible.clone() }, 1)
        .unwrap();
    assert_eq!(kept.job_id, impossible.id);
    assert_eq!(kept.initial_plan, None);
    let view = coordinator.get_job(&impossible.id.text()).unwrap();
    assert_eq!(view.roles[0].status, CooperativeRoleStatus::Ready);

    let mut better = machine(ResourceId(9), "missing");
    better.performance_score = binary(2.0);
    coordinator
        .register_resource(
            RegisterResourceRequest { descriptor: better, data_endpoint: "http://nine".into() },
            2,
        )
        .unwrap();
    coordinator.poll_work(WorkPollRequest { resource_id: id, epoch }, 3).unwrap();
    let view = coordinator.get_job(&impossible.id.text()).unwrap();
    assert!(matches!(view.roles[0].status, CooperativeRoleStatus::Submitted(_)));

    let planned = coordinator
        .submit_logical_job(PlanLogicalJobRequest { job: logical("any") }, 4)
        .unwrap();
    assert!(planned.initial_plan.is_some());
    let mut invalid = logical("any");
    invalid.outputs = vec![];
    assert_eq!(
        refused(coordinator.plan_logical_job(&PlanLogicalJobRequest { job: invalid.clone() }, 4)).0,
        400
    );
    assert_eq!(
        refused(coordinator.submit_logical_job(PlanLogicalJobRequest { job: invalid }, 4)).0,
        400
    );
}

fn report(from: ResourceId, to: ResourceId, epoch: u64, measurement: LinkMeasurement) -> ReportLinkMeasurementRequest {
    ReportLinkMeasurementRequest {
        reporter_resource_id: from,
        reporter_epoch: epoch,
        peer_resource_id: to,
        measurement,
    }
}

fn reachable(rtt_ms: f64) -> LinkMeasurement {
    LinkMeasurement::Reachable { rtt_ms: binary(rtt_ms), bandwidth_mbps: binary(100.0) }
}

#[test]
fn measured_links_come_and_go() {
    let mut coordinator = Coordinator::new(1_000, 1_000);
    let a = ResourceId(1);
    let b = ResourceId(2);
    let epoch = join(&mut coordinator, a, 0);
    coordinator.report_measurement(report(a, b, epoch, reachable(7.0)), 1).unwrap();
    assert_eq!(coordinator.fabric().topology().link(b, a).unwrap().rtt_ms, binary(7.0));
    coordinator.report_measurement(report(a, b, epoch, reachable(8.0)), 2).unwrap();
    assert_eq!(coordinator.fabric().topology().links.len(), 1);
    assert_eq!(coordinator.fabric().topology().link(a, b).unwrap().rtt_ms, binary(8.0));
    coordinator
        .report_measurement(report(a, b, epoch, LinkMeasurement::Unreachable), 3)
        .unwrap();
    assert!(coordinator.fabric().topology().links.is_empty());
    assert_eq!(
        refused(coordinator.report_measurement(report(a, b, epoch, reachable(-1.0)), 3)),
        (400, "link requires non-negative RTT and positive bandwidth".to_owned())
    );
    assert_eq!(
        refused(coordinator.report_measurement(report(a, b, epoch + 1, reachable(1.0)), 3)).0,
        409
    );
    assert_eq!(
        refused(coordinator.report_measurement(report(b, a, 1, reachable(1.0)), 3)).0,
        404
    );
}

#[test]
fn links_set_by_hand_are_authoritative() {
    let mut coordinator = Coordinator::new(1_000, 1_000);
    let a = ResourceId(1);
    let b = ResourceId(2);
    let epoch = join(&mut coordinator, a, 0);
    let link = LinkProfile { from: b, to: a, rtt_ms: binary(50.0), bandwidth_mbps: binary(10.0) };
    coordinator.update_link(LinkUpdateRequest { link }).unwrap();
    coordinator.report_measurement(report(a, b, epoch, reachable(1.0)), 1).unwrap();
    assert_eq!(coordinator.fabric().topology().link(a, b).unwrap().rtt_ms, binary(50.0));
    coordinator
        .report_measurement(report(a, b, epoch, LinkMeasurement::Unreachable), 1)
        .unwrap();
    assert_eq!(coordinator.fabric().topology().links.len(), 1);
    let idle = LinkProfile { bandwidth_mbps: binary(0.0), ..link };
    assert_eq!(
        refused(coordinator.update_link(LinkUpdateRequest { link: idle })),
        (400, "link requires non-negative RTT and positive bandwidth".to_owned())
    );
}

#[test]
fn maintenance_dismisses_lost_members() {
    let mut coordinator = Coordinator::new(1_000, 500);
    let id = ResourceId(1);
    let epoch = join(&mut coordinator, id, 0);
    let task = work(vec![]);
    let task_id = task.id;
    coordinator.submit_task(SubmitTaskRequest { task }).unwrap();
    let request = WorkPollRequest { resource_id: id, epoch };
    let assignment = coordinator.poll_work(request, 100).unwrap().assignment.unwrap();
    coordinator.maintenance_tick(599);
    assert!(matches!(
        coordinator.show_task(task_id).unwrap().status,
        TaskStatus::Running(_)
    ));
    coordinator.maintenance_tick(600);
    assert_eq!(coordinator.show_task(task_id).unwrap().status, TaskStatus::Pending);
    assert_eq!(
        refused(coordinator.renew_execution(
            RenewExecutionRequest { lease: assignment.lease },
            601
        ))
        .0,
        409
    );
    coordinator.maintenance_tick(1_000);
    assert!(coordinator.list_resources(999).resources.is_empty());
}

#[test]
fn refusals_have_their_statuses() {
    let status = |error: FabricError| ApiError::from_fabric(error).status;
    assert_eq!(status(FabricError::UnknownTask(TaskId(1))), 404);
    assert_eq!(status(FabricError::UnknownObject(ObjectId(1))), 404);
    assert_eq!(status(FabricError::UnknownJob(JobId(1))), 404);
    assert_eq!(status(FabricError::ResourceNotActive(ResourceId(1))), 404);
    assert_eq!(status(FabricError::DuplicateTask(TaskId(1))), 409);
    assert_eq!(status(FabricError::ObjectConflict(ObjectId(1))), 409);
    assert_eq!(status(FabricError::TaskNotPending(TaskId(1))), 409);
    assert_eq!(status(FabricError::StaleExecution), 409);
    assert_eq!(status(FabricError::ExecutionExpired), 409);
    assert_eq!(status(FabricError::StaleResourceEpoch(ResourceId(1))), 409);
    assert_eq!(status(FabricError::InvalidTask("x".into())), 400);
    assert_eq!(status(FabricError::Scheduling(ScheduleError::NoCandidate)), 422);
    assert_eq!(
        ApiError::from_plan(PlanError::NoFeasibleImplementation("r".into())).status,
        422
    );
    assert_eq!(API_VERSION, 4);
}
