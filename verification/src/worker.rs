//! What an agent does: joining, asking for work, renewing leases and probing its peers.

use vstd::prelude::*;
use vstd::string::*;

use crate::binary64::Binary64;
use crate::collections::NameSet;
use crate::ids::{JobId, ResourceId, TaskId};
use crate::protocol::{LinkMeasurement, ResourceView, ResourceViewModel};
use crate::resources::{Architecture, ArchitectureModel, ResourceDescriptor, ResourceModel};
use crate::status::{CooperativeJobStatus, TaskStatus};
use crate::tasks::{ExecutionLease, MembershipLease};
use crate::text::{concat2, concat3, concat4, decimal_text, same_text};
use crate::transfer::PROBE_BYTES;

verus! {

/// What an agent is told about the machine that it runs on.
#[derive(Clone, Debug)]
pub struct ResourceArgs {
    pub name: String,
    pub cpu_cores: u32,
    pub memory_gib: u64,
    pub performance: Binary64,
    pub features: Vec<String>,
}

/// An architecture by its name.
pub open spec fn architecture_named(name: Seq<char>) -> ArchitectureModel {
    if name == "x86_64"@ {
        ArchitectureModel::X86_64
    } else if name == "aarch64"@ {
        ArchitectureModel::Aarch64
    } else if name == "riscv64"@ {
        ArchitectureModel::RiscV64
    } else {
        ArchitectureModel::Other(name)
    }
}

pub fn current_architecture(name: &str) -> (r: Architecture)
    ensures
        r@ == architecture_named(name@),
{
    if same_text(name, "x86_64") {
        Architecture::X86_64
    } else if same_text(name, "aarch64") {
        Architecture::Aarch64
    } else if same_text(name, "riscv64") {
        Architecture::RiscV64
    } else {
        Architecture::Other(name.to_owned())
    }
}

/// The description of a machine as a resource; its name is one of its features.
pub open spec fn advertised(id: ResourceId, args: ResourceArgs, architecture: Seq<char>) -> ResourceModel {
    ResourceModel {
        id,
        epoch: 0,
        architecture: architecture_named(architecture),
        cpu_cores: args.cpu_cores,
        memory_bytes: args.memory_gib << 30,
        accelerators: Seq::empty(),
        features: crate::text::views(args.features@).to_set().insert("agent-name:"@ + args.name@),
        performance_score: args.performance,
        queue_delay_ms: Binary64 { bits: 0 },
        startup_delay_ms: Binary64 { bits: 0 },
        failure_probability: Binary64::nearest_to(1).quotient(Binary64::nearest_to(100)),
    }
}

pub fn descriptor(id: ResourceId, args: &ResourceArgs, architecture: &str) -> (r: ResourceDescriptor)
    ensures
        r@ == advertised(id, *args, architecture@),
{
    let listed = args.features.clone();
    assert(crate::text::views(listed@) =~= crate::text::views(args.features@));
    let mut features = NameSet::from_list(listed);
    features.insert(concat2("agent-name:", args.name.as_str()));
    let r = ResourceDescriptor {
        id,
        epoch: 0,
        architecture: current_architecture(architecture),
        cpu_cores: args.cpu_cores,
        memory_bytes: args.memory_gib << 30,
        accelerators: Vec::new(),
        features,
        performance_score: args.performance,
        queue_delay_ms: Binary64::from_bits(0),
        startup_delay_ms: Binary64::from_bits(0),
        failure_probability: Binary64::from_u64(1).div(Binary64::from_u64(100)),
    };
    assert(r@.accelerators =~= Seq::empty());
    r
}

/// How often an agent does what it does, in milliseconds.
#[derive(Clone, Copy, Debug, PartialEq, Eq, Structural)]
pub struct WorkerPeriods {
    pub heartbeat_ms: u64,
    pub poll_ms: u64,
    pub probe_ms: u64,
}

pub open spec fn at_least(value: u64, low: u64) -> u64 {
    if value < low {
        low
    } else {
        value
    }
}

impl WorkerPeriods {
    /// Periods that are not too short.
    pub fn of(heartbeat_ms: u64, poll_ms: u64, probe_ms: u64) -> (r: WorkerPeriods)
        ensures
            r.heartbeat_ms == at_least(heartbeat_ms, 50),
            r.poll_ms == at_least(poll_ms, 20),
            r.probe_ms == at_least(probe_ms, 50),
    {
        WorkerPeriods {
            heartbeat_ms: if heartbeat_ms < 50 {
                50
            } else {
                heartbeat_ms
            },
            poll_ms: if poll_ms < 20 {
                20
            } else {
                poll_ms
            },
            probe_ms: if probe_ms < 50 {
                50
            } else {
                probe_ms
            },
        }
    }
}

/// The state of an agent that has joined.
#[derive(Clone, Copy, Debug, PartialEq, Eq, Structural)]
pub struct Worker {
    pub lease: MembershipLease,
    pub busy: bool,
    pub probing: bool,
}

/// What happens to an agent.
#[derive(Clone, Copy, Debug, PartialEq, Eq, Structural)]
pub enum WorkerEvent {
    HeartbeatDue,
    /// The lease that came back, or nothing where the heartbeat was rejected.
    HeartbeatAnswered(Option<MembershipLease>),
    /// The lease that came back, or nothing where the registration failed.
    Registered(Option<MembershipLease>),
    PollDue,
    /// Whether there was work.
    PollAnswered { work: bool },
    WorkEnded,
    ProbeDue,
    ProbeEnded,
    StopRequested,
}

/// What an agent is to do.
#[derive(Clone, Copy, Debug, PartialEq, Eq, Structural)]
pub enum WorkerAction {
    Wait,
    SendHeartbeat(MembershipLease),
    Register,
    Poll(MembershipLease),
    Execute,
    Probe(MembershipLease),
    Exit,
}

impl Worker {
    pub open spec fn joined(lease: MembershipLease) -> Worker {
        Worker { lease, busy: false, probing: false }
    }

    pub open spec fn after(self, event: WorkerEvent) -> (Worker, WorkerAction) {
        match event {
            WorkerEvent::HeartbeatDue => (self, WorkerAction::SendHeartbeat(self.lease)),
            WorkerEvent::HeartbeatAnswered(Some(lease)) => (
                Worker { lease, ..self },
                WorkerAction::Wait,
            ),
            WorkerEvent::HeartbeatAnswered(None) => (self, WorkerAction::Register),
            WorkerEvent::Registered(Some(lease)) => (Worker { lease, ..self }, WorkerAction::Wait),
            WorkerEvent::Registered(None) => (self, WorkerAction::Wait),
            WorkerEvent::PollDue => if self.busy {
                (self, WorkerAction::Wait)
            } else {
                (self, WorkerAction::Poll(self.lease))
            },
            WorkerEvent::PollAnswered { work } => if work {
                (Worker { busy: true, ..self }, WorkerAction::Execute)
            } else {
                (self, WorkerAction::Wait)
            },
            WorkerEvent::WorkEnded => (Worker { busy: false, ..self }, WorkerAction::Wait),
            WorkerEvent::ProbeDue => if self.probing {
                (self, WorkerAction::Wait)
            } else {
                (Worker { probing: true, ..self }, WorkerAction::Probe(self.lease))
            },
            WorkerEvent::ProbeEnded => (Worker { probing: false, ..self }, WorkerAction::Wait),
            WorkerEvent::StopRequested => (self, WorkerAction::Exit),
        }
    }

    pub fn join(lease: MembershipLease) -> (r: Worker)
        ensures
            r == Worker::joined(lease),
    {
        Worker { lease, busy: false, probing: false }
    }

    /// What an agent is to do after something happened to it.
    pub fn on(&mut self, event: WorkerEvent) -> (r: WorkerAction)
        ensures
            (*final(self), r) == old(self).after(event),
    {
        match event {
            WorkerEvent::HeartbeatDue => WorkerAction::SendHeartbeat(self.lease),
            WorkerEvent::HeartbeatAnswered(Some(lease)) => {
                self.lease = lease;
                WorkerAction::Wait
            },
            WorkerEvent::HeartbeatAnswered(None) => WorkerAction::Register,
            WorkerEvent::Registered(Some(lease)) => {
                self.lease = lease;
                WorkerAction::Wait
            },
            WorkerEvent::Registered(None) => WorkerAction::Wait,
            WorkerEvent::PollDue => if self.busy {
                WorkerAction::Wait
            } else {
                WorkerAction::Poll(self.lease)
            },
            WorkerEvent::PollAnswered { work } => if work {
                self.busy = true;
                WorkerAction::Execute
            } else {
                WorkerAction::Wait
            },
            WorkerEvent::WorkEnded => {
                self.busy = false;
                WorkerAction::Wait
            },
            WorkerEvent::ProbeDue => if self.probing {
                WorkerAction::Wait
            } else {
                self.probing = true;
                WorkerAction::Probe(self.lease)
            },
            WorkerEvent::ProbeEnded => {
                self.probing = false;
                WorkerAction::Wait
            },
            WorkerEvent::StopRequested => WorkerAction::Exit,
        }
    }
}

/// An agent asks for work only while it has none, probes in one pass at a time, and acts under the
/// lease that the coordinator gave it last.
pub proof fn law_agents_do_one_thing_at_a_time(worker: Worker, event: WorkerEvent)
    ensures
        worker.after(event).1 matches WorkerAction::Poll(lease) ==> !worker.busy && lease == worker.lease,
        worker.after(event).1 matches WorkerAction::Probe(lease) ==> !worker.probing
            && worker.after(event).0.probing && lease == worker.lease,
        worker.after(event).1 is Execute ==> worker.after(event).0.busy,
        worker.after(event).0.lease != worker.lease ==> event == WorkerEvent::HeartbeatAnswered(
            Some(worker.after(event).0.lease),
        ) || event == WorkerEvent::Registered(Some(worker.after(event).0.lease)),
{
}

/// How long to wait before a lease is renewed: a third of what is left of it, but not less than 50
/// milliseconds and not more than five seconds; nothing is left to renew of a lease that has expired.
pub open spec fn renewal_wait(expires_at_unix_ms: u64, now: u64) -> Option<u64> {
    if expires_at_unix_ms <= now {
        None
    } else {
        let third = (expires_at_unix_ms - now) / 3;
        Some(
            if third < 50 {
                50
            } else if third > 5_000 {
                5_000
            } else {
                third as u64
            },
        )
    }
}

pub fn renewal_delay(lease: &ExecutionLease, now: u64) -> (r: Option<u64>)
    ensures
        r == renewal_wait(lease.expires_at_unix_ms, now),
{
    if lease.expires_at_unix_ms <= now {
        return None;
    }
    let third: u64 = (lease.expires_at_unix_ms - now) / 3;
    if third < 50 {
        Some(50)
    } else if third > 5_000 {
        Some(5_000)
    } else {
        Some(third)
    }
}

/// A lease that has more than 50 milliseconds left is renewed before it expires.
pub proof fn law_renewals_come_before_expiry(expires_at_unix_ms: u64, now: u64)
    requires
        expires_at_unix_ms > now + 50,
    ensures
        renewal_wait(expires_at_unix_ms, now) matches Some(wait) && now + wait < expires_at_unix_ms,
{
}

/// What came of asking for a renewal.
#[derive(Clone, Copy, Debug, PartialEq, Eq, Structural)]
pub enum RenewalOutcome {
    Renewed(ExecutionLease),
    /// The coordinator could not be asked.
    Unreachable,
    Rejected,
}

/// The lease to go on with, if any.
pub open spec fn lease_after(lease: ExecutionLease, outcome: RenewalOutcome) -> Option<ExecutionLease> {
    match outcome {
        RenewalOutcome::Renewed(renewed) => Some(renewed),
        RenewalOutcome::Unreachable => Some(lease),
        RenewalOutcome::Rejected => None,
    }
}

pub fn settle_renewal(lease: ExecutionLease, outcome: RenewalOutcome) -> (r: Option<ExecutionLease>)
    ensures
        r == lease_after(lease, outcome),
{
    match outcome {
        RenewalOutcome::Renewed(renewed) => Some(renewed),
        RenewalOutcome::Unreachable => Some(lease),
        RenewalOutcome::Rejected => None,
    }
}

/// Of two agents, the one with the lower identifier probes the other.
pub open spec fn probes(agent: ResourceId, peer: ResourceId) -> bool {
    agent.0 < peer.0
}

/// Every pair of agents has one that probes.
pub proof fn law_every_pair_has_one_prober(a: ResourceId, b: ResourceId)
    ensures
        a != b ==> probes(a, b) != probes(b, a),
        !probes(a, a),
{
}

/// A peer to be probed.
#[derive(Clone, Debug)]
pub struct Peer {
    pub resource_id: ResourceId,
    pub endpoint: String,
}

pub struct PeerModel {
    pub resource_id: ResourceId,
    pub endpoint: Seq<char>,
}

impl View for Peer {
    type V = PeerModel;

    open spec fn view(&self) -> PeerModel {
        PeerModel { resource_id: self.resource_id, endpoint: self.endpoint@ }
    }
}

/// Those of the first `k` resources that an agent is to probe: its peers that have an address.
pub open spec fn probed(agent: ResourceId, resources: Seq<ResourceViewModel>, k: nat) -> Seq<PeerModel>
    decreases k,
{
    if k == 0 {
        Seq::empty()
    } else {
        let before = probed(agent, resources, (k - 1) as nat);
        let peer = resources[k - 1];
        match peer.data_endpoint {
            Some(endpoint) if probes(agent, peer.descriptor.id) => before.push(
                PeerModel { resource_id: peer.descriptor.id, endpoint },
            ),
            _ => before,
        }
    }
}

pub fn peers_to_probe(agent: ResourceId, resources: &Vec<ResourceView>) -> (r: Vec<Peer>)
    ensures
        crate::text::views(r@) == probed(
            agent,
            crate::text::views(resources@),
            resources@.len(),
        ),
{
    let ghost model = crate::text::views(resources@);
    let mut peers: Vec<Peer> = Vec::new();
    let mut k: usize = 0;
    assert(crate::text::views(peers@) =~= Seq::<PeerModel>::empty());
    while k < resources.len()
        invariant
            k <= resources@.len(),
            model == crate::text::views(resources@),
            crate::text::views(peers@) == probed(agent, model, k as nat),
        decreases resources@.len() - k,
    {
        let peer = &resources[k];
        assert(model[k as int] == peer@);
        if let Some(endpoint) = &peer.data_endpoint {
            if agent.0 < peer.descriptor.id.0 {
                let ghost before = crate::text::views(peers@);
                let one = Peer { resource_id: peer.descriptor.id, endpoint: endpoint.clone() };
                let ghost shown = one@;
                peers.push(one);
                assert(crate::text::views(peers@) =~= before.push(shown));
            }
        }
        k = k + 1;
    }
    peers
}

/// The least of the first `k` times.
pub open spec fn least(times: Seq<Binary64>, k: nat) -> Binary64
    decreases k,
{
    if k == 0 {
        Binary64 { bits: crate::binary64::INFINITE_MAGNITUDE }
    } else {
        least(times, (k - 1) as nat).minimum(times[k - 1])
    }
}

/// The bandwidth by the time that a probe of bytes took beyond the round trip, in megabits per
/// second. A tenth of a millisecond is the least that such a probe takes.
pub open spec fn throughput(rtt_ms: Binary64, elapsed_ms: Binary64) -> Binary64 {
    let payload_ms = elapsed_ms.difference(rtt_ms).maximum(
        Binary64::nearest_to(1).quotient(Binary64::nearest_to(10)),
    );
    Binary64::nearest_to(PROBE_BYTES as nat).product(Binary64::nearest_to(8)).quotient(
        payload_ms,
    ).quotient(Binary64::nearest_to(1_000))
}

/// What probes tell of the way to a peer: the times of some that carried nothing, and of one that
/// carried bytes, in milliseconds.
pub fn estimate_link(round_trips_ms: &Vec<Binary64>, elapsed_ms: Binary64) -> (r: LinkMeasurement)
    ensures
        ({
            let rtt_ms = least(round_trips_ms@, round_trips_ms@.len());
            r == LinkMeasurement::Reachable {
                rtt_ms,
                bandwidth_mbps: throughput(rtt_ms, elapsed_ms),
            }
        }),
{
    let mut rtt_ms = Binary64::from_bits(crate::binary64::INFINITE_MAGNITUDE);
    let mut k: usize = 0;
    while k < round_trips_ms.len()
        invariant
            k <= round_trips_ms@.len(),
            rtt_ms == least(round_trips_ms@, k as nat),
        decreases round_trips_ms@.len() - k,
    {
        rtt_ms = rtt_ms.min(round_trips_ms[k]);
        k = k + 1;
    }
    let payload_ms = elapsed_ms.sub(rtt_ms).max(
        Binary64::from_u64(1).div(Binary64::from_u64(10)),
    );
    let bandwidth_mbps = Binary64::from_u64(PROBE_BYTES as u64).mul(Binary64::from_u64(8)).div(
        payload_ms,
    ).div(Binary64::from_u64(1_000));
    LinkMeasurement::Reachable { rtt_ms, bandwidth_mbps }
}

/// What is wrong with the answer to a probe.
pub fn probe_error(received: usize, expected: usize) -> (r: Option<String>)
    ensures
        match r {
            Some(message) => received != expected && message@ == "probe returned "@
                + crate::text::decimal(received as nat) + " bytes, expected "@ + crate::text::decimal(
                expected as nat,
            ),
            None => received == expected,
        },
{
    if received == expected {
        None
    } else {
        Some(
            concat4(
                "probe returned ",
                decimal_text(received as u64).as_str(),
                " bytes, expected ",
                decimal_text(expected as u64).as_str(),
            ),
        )
    }
}

/// How a refused request is reported: its status, and what the answer says of it.
pub fn describe_refusal(status: &str, reason: Option<&str>) -> (r: String)
    ensures
        match reason {
            Some(text) => r@ == status@ + ": "@ + text@,
            None => r@ == status@,
        },
{
    match reason {
        Some(text) => concat3(status, ": ", text),
        None => status.to_owned(),
    }
}

/// What a client that waits is to do.
#[derive(Clone, Debug, PartialEq, Eq)]
pub enum WaitStep {
    Done,
    Failed(String),
    Again,
}

pub enum WaitModel {
    Done,
    Failed(Seq<char>),
    Again,
}

impl View for WaitStep {
    type V = WaitModel;

    open spec fn view(&self) -> WaitModel {
        match self {
            WaitStep::Done => WaitModel::Done,
            WaitStep::Failed(message) => WaitModel::Failed(message@),
            WaitStep::Again => WaitModel::Again,
        }
    }
}

/// A client waits until what it waits for is complete or uncertain, or until it is late.
pub open spec fn waiting(subject: Seq<char>, complete: bool, uncertain: bool, late: bool) -> WaitModel {
    if complete {
        WaitModel::Done
    } else if uncertain {
        WaitModel::Failed(subject + " entered uncertain state"@)
    } else if late {
        WaitModel::Failed("timed out waiting for "@ + subject)
    } else {
        WaitModel::Again
    }
}

fn decide_wait(subject: &str, complete: bool, uncertain: bool, late: bool) -> (r: WaitStep)
    ensures
        r@ == waiting(subject@, complete, uncertain, late),
{
    if complete {
        WaitStep::Done
    } else if uncertain {
        WaitStep::Failed(concat2(subject, " entered uncertain state"))
    } else if late {
        WaitStep::Failed(concat2("timed out waiting for ", subject))
    } else {
        WaitStep::Again
    }
}

pub fn wait_for_task(task: TaskId, status: &TaskStatus, late: bool) -> (r: WaitStep)
    ensures
        r@ == waiting(
            "task "@ + crate::ids::hyphenated(task.0),
            status@ is Completed,
            status@ is Uncertain,
            late,
        ),
{
    let complete = match status {
        TaskStatus::Completed(_) => true,
        _ => false,
    };
    let uncertain = match status {
        TaskStatus::Uncertain => true,
        _ => false,
    };
    decide_wait(concat2("task ", task.text().as_str()).as_str(), complete, uncertain, late)
}

pub fn wait_for_job(job: JobId, status: &CooperativeJobStatus, late: bool) -> (r: WaitStep)
    ensures
        r@ == waiting(
            "cooperative job "@ + crate::ids::hyphenated(job.0),
            status@ is Completed,
            status@ is Uncertain,
            late,
        ),
{
    let complete = match status {
        CooperativeJobStatus::Completed(_) => true,
        _ => false,
    };
    let uncertain = match status {
        CooperativeJobStatus::Uncertain => true,
        _ => false,
    };
    decide_wait(concat2("cooperative job ", job.text().as_str()).as_str(), complete, uncertain, late)
}

}
