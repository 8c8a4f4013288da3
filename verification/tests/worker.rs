use plurifold::binary64::Binary64;
use plurifold::collections::NameSet;
use plurifold::ids::{ExecutionId, JobId, ResourceId, TaskId};
use plurifold::protocol::{LinkMeasurement, ResourceView};
use plurifold::resources::{Architecture, ResourceDescriptor};
use plurifold::status::{CooperativeJobStatus, TaskStatus};
use plurifold::tasks::{ExecutionLease, MembershipLease};
use plurifold::worker::{
    current_architecture, describe_refusal, descriptor, estimate_link, peers_to_probe, probe_error,
    renewal_delay, settle_renewal, wait_for_job, wait_for_task, RenewalOutcome, ResourceArgs,
    WaitStep, Worker, WorkerAction, WorkerEvent, WorkerPeriods,
};

fn binary(x: f64) -> Binary64 {
    Binary64::from_bits(x.to_bits())
}

fn args() -> ResourceArgs {
    ResourceArgs {
        name: "left".into(),
        cpu_cores: 4,
        memory_gib: 2,
        performance: binary(1.5),
        features: vec!["cuda:13".into(), "wasi:0.3".into()],
    }
}

#[test]
fn agents_advertise_their_machine() {
    let id = ResourceId::new();
    let advertised = descriptor(id, &args(), "aarch64");
    assert_eq!(advertised.id, id);
    assert_eq!(advertised.architecture, Architecture::Aarch64);
    assert_eq!(advertised.cpu_cores, 4);
    assert_eq!(advertised.memory_bytes, 2 << 30);
    assert_eq!(advertised.performance_score, binary(1.5));
    assert!(advertised.features.contains("cuda:13"));
    assert!(advertised.features.contains("wasi:0.3"));
    assert!(advertised.features.contains("agent-name:left"));
    assert!(!advertised.features.contains("left"));
}

#[test]
fn memory_is_counted_in_gibibytes() {
    let mut large = args();
    large.memory_gib = 64;
    assert_eq!(descriptor(ResourceId::new(), &large, "x").memory_bytes, 64 << 30);
    large.memory_gib = u64::MAX;
    assert_eq!(descriptor(ResourceId::new(), &large, "x").memory_bytes, u64::MAX << 30);
}

#[test]
fn architectures_are_known_by_name() {
    assert_eq!(current_architecture("x86_64"), Architecture::X86_64);
    assert_eq!(current_architecture("aarch64"), Architecture::Aarch64);
    assert_eq!(current_architecture("riscv64"), Architecture::RiscV64);
    assert_eq!(current_architecture("s390x"), Architecture::Other("s390x".into()));
}

#[test]
fn periods_have_lower_bounds() {
    let periods = WorkerPeriods::of(1, 1, 1);
    assert_eq!(periods.heartbeat_ms, 50);
    assert_eq!(periods.poll_ms, 20);
    assert_eq!(periods.probe_ms, 50);
    let longer = WorkerPeriods::of(51, 21, 52);
    assert_eq!((longer.heartbeat_ms, longer.poll_ms, longer.probe_ms), (51, 21, 52));
}

fn membership(epoch: u64) -> MembershipLease {
    MembershipLease { resource_id: ResourceId(7), epoch, expires_at_unix_ms: 100 }
}

#[test]
fn agents_do_one_thing_at_a_time() {
    let mut worker = Worker::join(membership(1));
    assert_eq!(worker.on(WorkerEvent::PollDue), WorkerAction::Poll(membership(1)));
    assert_eq!(worker.on(WorkerEvent::PollAnswered { work: false }), WorkerAction::Wait);
    assert_eq!(worker.on(WorkerEvent::PollDue), WorkerAction::Poll(membership(1)));
    assert_eq!(worker.on(WorkerEvent::PollAnswered { work: true }), WorkerAction::Execute);
    assert_eq!(worker.on(WorkerEvent::PollDue), WorkerAction::Wait);
    assert_eq!(worker.on(WorkerEvent::ProbeDue), WorkerAction::Probe(membership(1)));
    assert_eq!(worker.on(WorkerEvent::ProbeDue), WorkerAction::Wait);
    assert_eq!(worker.on(WorkerEvent::ProbeEnded), WorkerAction::Wait);
    assert_eq!(worker.on(WorkerEvent::WorkEnded), WorkerAction::Wait);
    assert_eq!(worker.on(WorkerEvent::PollDue), WorkerAction::Poll(membership(1)));
    assert_eq!(worker.on(WorkerEvent::StopRequested), WorkerAction::Exit);
}

#[test]
fn agents_register_again_after_a_rejected_heartbeat() {
    let mut worker = Worker::join(membership(1));
    assert_eq!(worker.on(WorkerEvent::HeartbeatDue), WorkerAction::SendHeartbeat(membership(1)));
    assert_eq!(worker.on(WorkerEvent::HeartbeatAnswered(None)), WorkerAction::Register);
    assert_eq!(worker.on(WorkerEvent::Registered(None)), WorkerAction::Wait);
    assert_eq!(worker.lease, membership(1));
    assert_eq!(worker.on(WorkerEvent::Registered(Some(membership(2)))), WorkerAction::Wait);
    assert_eq!(worker.on(WorkerEvent::HeartbeatDue), WorkerAction::SendHeartbeat(membership(2)));
}

fn lease(expires_at_unix_ms: u64) -> ExecutionLease {
    ExecutionLease {
        execution_id: ExecutionId(1),
        task_id: TaskId(2),
        resource_id: ResourceId(3),
        resource_epoch: 4,
        expires_at_unix_ms,
    }
}

#[test]
fn leases_are_renewed_after_a_third_of_their_time() {
    assert_eq!(renewal_delay(&lease(4_000), 1_000), Some(1_000));
    assert_eq!(renewal_delay(&lease(1_090), 1_000), Some(50));
    assert_eq!(renewal_delay(&lease(100_000), 1_000), Some(5_000));
    assert_eq!(renewal_delay(&lease(1_000), 1_000), None);
}

#[test]
fn rejected_renewals_end_the_lease() {
    let current = lease(10);
    assert_eq!(settle_renewal(current, RenewalOutcome::Renewed(lease(20))), Some(lease(20)));
    assert_eq!(settle_renewal(current, RenewalOutcome::Unreachable), Some(current));
    assert_eq!(settle_renewal(current, RenewalOutcome::Rejected), None);
}

fn view(id: u128, data_endpoint: Option<&str>) -> ResourceView {
    ResourceView {
        descriptor: ResourceDescriptor {
            id: ResourceId(id),
            epoch: 1,
            architecture: Architecture::X86_64,
            cpu_cores: 1,
            memory_bytes: 1,
            accelerators: vec![],
            features: NameSet::new(),
            performance_score: binary(1.0),
            queue_delay_ms: binary(0.0),
            startup_delay_ms: binary(0.0),
            failure_probability: binary(0.0),
        },
        data_endpoint: data_endpoint.map(|endpoint| endpoint.to_owned()),
    }
}

#[test]
fn every_pair_has_one_prober() {
    let resources = vec![
        view(1, Some("http://one")),
        view(2, Some("http://two")),
        view(3, None),
        view(4, Some("http://four")),
    ];
    let probed = |agent: u128| -> Vec<(u128, String)> {
        peers_to_probe(ResourceId(agent), &resources)
            .into_iter()
            .map(|peer| (peer.resource_id.0, peer.endpoint))
            .collect()
    };
    assert_eq!(
        probed(1),
        vec![(2, "http://two".to_owned()), (4, "http://four".to_owned())]
    );
    assert_eq!(probed(2), vec![(4, "http://four".to_owned())]);
    assert_eq!(probed(4), vec![]);
}

#[test]
fn links_are_estimated_from_probes() {
    let measured = estimate_link(&vec![binary(3.0), binary(1.25), binary(2.0)], binary(5.5));
    let payload_ms = (5.5_f64 - 1.25).max(0.1);
    let expected = (256 * 1024) as f64 * 8.0 / payload_ms / 1_000.0;
    assert_eq!(
        measured,
        LinkMeasurement::Reachable { rtt_ms: binary(1.25), bandwidth_mbps: binary(expected) }
    );
    let quick = estimate_link(&vec![binary(3.0)], binary(2.0));
    let bound = (256 * 1024) as f64 * 8.0 / 0.1 / 1_000.0;
    assert_eq!(
        quick,
        LinkMeasurement::Reachable { rtt_ms: binary(3.0), bandwidth_mbps: binary(bound) }
    );
}

#[test]
fn short_probes_are_reported() {
    assert_eq!(probe_error(5, 5), None);
    assert_eq!(probe_error(4, 5), Some("probe returned 4 bytes, expected 5".to_owned()));
}

#[test]
fn refusals_are_described() {
    assert_eq!(describe_refusal("409 Conflict", Some("stale")), "409 Conflict: stale");
    assert_eq!(describe_refusal("409 Conflict", None), "409 Conflict");
}

#[test]
fn clients_wait_until_there_is_an_end() {
    let task = TaskId(0x10);
    let name = task.text();
    assert_eq!(wait_for_task(task, &TaskStatus::Completed(vec![]), true), WaitStep::Done);
    assert_eq!(wait_for_task(task, &TaskStatus::Pending, false), WaitStep::Again);
    assert_eq!(
        wait_for_task(task, &TaskStatus::Pending, true),
        WaitStep::Failed(format!("timed out waiting for task {name}"))
    );
    assert_eq!(
        wait_for_task(task, &TaskStatus::Uncertain, false),
        WaitStep::Failed(format!("task {name} entered uncertain state"))
    );
    let job = JobId(0x20);
    let name = job.text();
    assert_eq!(wait_for_job(job, &CooperativeJobStatus::Completed(vec![]), false), WaitStep::Done);
    assert_eq!(wait_for_job(job, &CooperativeJobStatus::Running, false), WaitStep::Again);
    assert_eq!(
        wait_for_job(job, &CooperativeJobStatus::Running, true),
        WaitStep::Failed(format!("timed out waiting for cooperative job {name}"))
    );
    assert_eq!(
        wait_for_job(job, &CooperativeJobStatus::Uncertain, false),
        WaitStep::Failed(format!("cooperative job {name} entered uncertain state"))
    );
}
