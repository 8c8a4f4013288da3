//! What holds of agents: what they do next, how long their leases last, and whom they probe.

use vstd::prelude::*;

use crate::binary64::Binary64;
use crate::ids::ResourceId;
use crate::protocol::ResourceViewModel;
use crate::tasks::ExecutionLease;
use crate::worker::{RenewalOutcome, ResourceArgs, Worker, WorkerAction, WorkerEvent};

verus! {

/// An agent is at work from when it gets some until that ends, and probes from when it begins to until
/// that ends. It goes on with the last lease that it was given.
pub proof fn law_agents_know_what_they_do(worker: Worker, event: WorkerEvent)
    ensures
        ({
            let next = worker.after(event).0;
            &&& next.busy <==> event == (WorkerEvent::PollAnswered { work: true }) || (worker.busy && !(
            event is WorkEnded))
            &&& next.probing <==> event is ProbeDue || (worker.probing && !(event is ProbeEnded))
            &&& next.lease == match event {
                WorkerEvent::HeartbeatAnswered(Some(lease)) => lease,
                WorkerEvent::Registered(Some(lease)) => lease,
                _ => worker.lease,
            }
        }),
{
}

/// An agent answers each event in one way: when a heartbeat is due it sends one, when that is refused it
/// registers anew, when it is idle and asking is due it asks for work, when it gets some it does it, when
/// it probes nobody and probing is due it probes, and when it is to stop it ends. Otherwise it waits.
pub proof fn law_agents_answer_events(worker: Worker, event: WorkerEvent)
    ensures
        ({
            let action = worker.after(event).1;
            &&& action == WorkerAction::SendHeartbeat(worker.lease) <==> event is HeartbeatDue
            &&& action is Register <==> event == WorkerEvent::HeartbeatAnswered(None)
            &&& action == WorkerAction::Poll(worker.lease) <==> event is PollDue && !worker.busy
            &&& action is Execute <==> event == (WorkerEvent::PollAnswered { work: true })
            &&& action == WorkerAction::Probe(worker.lease) <==> event is ProbeDue && !worker.probing
            &&& action is Exit <==> event is StopRequested
        }),
{
}

/// A lease is renewed after a third of what is left of it, within bounds; one that is over is not. After
/// that an agent goes on with what it was given, or with what it has where nobody could be asked, and
/// with nothing just where it was refused.
pub proof fn law_leases_are_renewed_in_time(
    expires_at_unix_ms: u64,
    now: u64,
    lease: ExecutionLease,
    outcome: RenewalOutcome,
)
    ensures
        ({
            let wait = crate::worker::renewal_wait(expires_at_unix_ms, now);
            let left = expires_at_unix_ms - now;
            &&& wait is None <==> left <= 0
            &&& wait matches Some(w) ==> 50 <= w <= 5_000
            &&& wait matches Some(w) ==> (150 <= left < 15_000 ==> 3 * w <= left < 3 * w + 3)
            &&& wait matches Some(w) ==> (left < 150 ==> w == 50) && (left >= 15_000 ==> w == 5_000)
        }),
        crate::worker::lease_after(lease, outcome) is None <==> outcome is Rejected,
        outcome matches RenewalOutcome::Renewed(renewed) ==> crate::worker::lease_after(lease, outcome) == Some(
            renewed,
        ),
        outcome is Unreachable ==> crate::worker::lease_after(lease, outcome) == Some(lease),
{
}

/// Another agent that is to be probed: it has an address, and the higher identifier of the two.
pub open spec fn to_probe(agent: ResourceId, seen: ResourceViewModel) -> bool {
    seen.data_endpoint is Some && agent.0 < seen.descriptor.id.0
}

/// An agent probes just the others that it is to probe, at their addresses and in the order in which
/// they are shown: one more that is shown is one more to be probed at the end, or none.
pub proof fn law_agents_probe_their_peers(agent: ResourceId, shown: Seq<ResourceViewModel>, k: nat)
    requires
        k < shown.len(),
    ensures
        crate::worker::probed(agent, shown, 0).len() == 0,
        ({
            let before = crate::worker::probed(agent, shown, k);
            let all = crate::worker::probed(agent, shown, k + 1);
            &&& forall|i: int| 0 <= i < before.len() ==> #[trigger] all[i] == before[i]
            &&& all.len() == before.len() + if to_probe(agent, shown[k as int]) {
                1int
            } else {
                0
            }
            &&& to_probe(agent, shown[k as int]) ==> all.last().resource_id == shown[k as int].descriptor.id
                && Some(all.last().endpoint) == shown[k as int].data_endpoint
        }),
{
}

/// The least of some times is one of them, if there are any that are numbers, and none is less.
pub proof fn law_the_least_time_is_one_of_them(times: Seq<Binary64>, k: nat)
    requires
        0 < k <= times.len(),
        forall|i: int| 0 <= i < k ==> !(#[trigger] times[i]).nan(),
    ensures
        ({
            let least = crate::worker::least(times, k);
            &&& !least.nan()
            &&& forall|i: int| 0 <= i < k ==> !(#[trigger] times[i]).less(least)
            &&& least == (Binary64 { bits: crate::binary64::INFINITE_MAGNITUDE }) || exists|i: int|
                0 <= i < k && least == #[trigger] times[i]
        }),
    decreases k,
{
    if k > 1 {
        law_the_least_time_is_one_of_them(times, (k - 1) as nat);
        let before = crate::worker::least(times, (k - 1) as nat);
        let least = crate::worker::least(times, k);
        if least == before {
            if before != (Binary64 { bits: crate::binary64::INFINITE_MAGNITUDE }) {
                let i = choose|i: int| 0 <= i < k - 1 && before == #[trigger] times[i];
                assert(least == times[i]);
            }
        } else {
            assert(least == times[k - 1]);
        }
    } else {
        let least = crate::worker::least(times, 1);
        assert(crate::worker::least(times, 0) == (Binary64 { bits: crate::binary64::INFINITE_MAGNITUDE }));
        assert(least == times[0] || least == (Binary64 { bits: crate::binary64::INFINITE_MAGNITUDE }));
    }
}

/// A client has what it waits for just when that is complete; it gives up just when that is uncertain or
/// the client is late, and waits on otherwise.
pub proof fn law_clients_wait_until_it_is_decided(
    subject: Seq<char>,
    complete: bool,
    uncertain: bool,
    late: bool,
)
    ensures
        crate::worker::waiting(subject, complete, uncertain, late) is Done <==> complete,
        crate::worker::waiting(subject, complete, uncertain, late) is Failed <==> !complete && (uncertain || late),
        crate::worker::waiting(subject, complete, uncertain, late) is Again <==> !complete && !uncertain && !late,
{
}

/// A machine offers what it was told to: as many bytes as it has gibibytes of memory, its features and
/// its name among them, and nothing waits for it yet.
pub proof fn law_machines_offer_what_they_have(
    id: ResourceId,
    args: ResourceArgs,
    architecture: Seq<char>,
    feature: Seq<char>,
)
    requires
        args.memory_gib < 0x4_0000_0000,
    ensures
        ({
            let offer = crate::worker::advertised(id, args, architecture);
            &&& offer.id == id
            &&& offer.cpu_cores == args.cpu_cores
            &&& offer.memory_bytes == args.memory_gib * 0x4000_0000
            &&& offer.performance_score == args.performance
            &&& offer.queue_delay_ms.zero()
            &&& offer.startup_delay_ms.zero()
            &&& offer.accelerators.len() == 0
            &&& offer.features.contains(feature) <==> feature == "agent-name:"@ + args.name@ || exists|i: int|
                0 <= i < args.features@.len() && (#[trigger] args.features@[i])@ == feature
        }),
{
    let gib = args.memory_gib;
    assert(gib << 30 == gib * 0x4000_0000) by (bit_vector)
        requires
            gib < 0x4_0000_0000u64,
    ;
    let names = crate::text::views(args.features@);
    if names.contains(feature) {
        let i = choose|i: int| 0 <= i < names.len() && names[i] == feature;
        assert(args.features@[i]@ == feature);
    }
    if exists|i: int| 0 <= i < args.features@.len() && (#[trigger] args.features@[i])@ == feature {
        let i = choose|i: int| 0 <= i < args.features@.len() && (#[trigger] args.features@[i])@ == feature;
        assert(names[i] == feature);
    }
}

/// Only the time that a probe of bytes took beyond the round trip tells the bandwidth.
pub proof fn law_the_round_trip_does_not_count(
    rtt_ms: Binary64,
    elapsed_ms: Binary64,
    other_rtt_ms: Binary64,
    other_elapsed_ms: Binary64,
)
    requires
        elapsed_ms.difference(rtt_ms) == other_elapsed_ms.difference(other_rtt_ms),
    ensures
        crate::worker::throughput(rtt_ms, elapsed_ms) == crate::worker::throughput(
            other_rtt_ms,
            other_elapsed_ms,
        ),
{
}

/// The clock does not run backwards when it is read in fewer bits: a later reading is not an earlier
/// time, and none is before what no reading stands for. What fits is read as it is.
pub proof fn law_readings_keep_their_order(earlier: u128, later: u128)
    requires
        earlier <= later,
    ensures
        crate::clock::clamped_ms(Some(earlier)) <= crate::clock::clamped_ms(Some(later)),
        crate::clock::clamped_ms(None) <= crate::clock::clamped_ms(Some(earlier)),
        earlier <= u64::MAX ==> crate::clock::clamped_ms(Some(earlier)) == earlier,
        later > u64::MAX ==> crate::clock::clamped_ms(Some(later)) == u64::MAX,
{
}

}
