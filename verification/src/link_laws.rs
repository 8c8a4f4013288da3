//! What holds of links: how long transfers take, what is near, and how objects that are near each other
//! are brought together.

use vstd::prelude::*;

use crate::binary64::Binary64;
use crate::fabric_model::FabricModel;
use crate::ids::{ObjectId, ResourceId};
use crate::objects::ObjectModel;
use crate::reduction::Grouping;
use crate::resources::ResourceModel;
use crate::scheduler::{FusionAdvisor, ScheduleError};
use crate::tasks::TaskModel;
use crate::topology::LinkProfile;

verus! {

/// Nothing has to be brought to where it is. Elsewhere it comes over the link between the two places, in
/// the time that the link takes; it does not come where there is no link, or one without bandwidth or
/// with less than no round-trip time.
pub proof fn law_transfers_go_over_the_link(links: Seq<LinkProfile>, a: ResourceId, b: ResourceId, bytes: u64)
    ensures
        ({
            let time = crate::topology::transfer_between(links, a, b, bytes);
            let link = crate::topology::link_between(links, a, b);
            &&& a == b ==> time == Some(Binary64 { bits: 0 })
            &&& a != b ==> (time is Some <==> (link matches Some(l) && !l.rtt_ms.less(Binary64 { bits: 0 })
                && !l.bandwidth_mbps.at_most(Binary64 { bits: 0 })))
            &&& a != b && time is Some ==> time == link.unwrap().transfer_time(bytes)
        }),
{
}

/// More bytes do not take less time over a link, and a link with a longer round-trip time is not faster.
pub proof fn law_more_bytes_take_more_time(link: LinkProfile, slower: LinkProfile, bytes: u64, more: u64)
    requires
        bytes <= more,
        link.bytes_per_ms().finite(),
        !link.bytes_per_ms().negative(),
        !link.bytes_per_ms().zero(),
        slower.bandwidth_mbps == link.bandwidth_mbps,
        link.rtt_ms.at_most(slower.rtt_ms),
    ensures
        link.transfer_time(bytes) matches Some(time) ==> {
            &&& link.transfer_time(more) matches Some(longer) && (!time.nan() && !longer.nan() ==> time.at_most(
                longer,
            ))
            &&& slower.transfer_time(bytes) matches Some(later) && (!time.nan() && !later.nan() ==> time.at_most(
                later,
            ))
        },
{
    let rate = link.bytes_per_ms();
    let few = Binary64::nearest_to(bytes as nat);
    let many = Binary64::nearest_to(more as nat);
    crate::binary64_laws::law_numbers_keep_their_order(bytes as nat, more as nat);
    crate::binary64_laws::law_quotients_are_monotone(few, many, rate);
    let a = few.quotient(rate);
    let b = many.quotient(rate);
    if link.transfer_time(bytes) is Some {
        let time = link.rtt_ms.sum(a);
        let longer = link.rtt_ms.sum(b);
        let later = slower.rtt_ms.sum(a);
        crate::binary64_laws::law_sums_commute(link.rtt_ms, a);
        crate::binary64_laws::law_sums_commute(link.rtt_ms, b);
        if !time.nan() && !longer.nan() {
            crate::binary64_laws::law_sums_are_monotone(a, b, link.rtt_ms);
        }
        if !time.nan() && !later.nan() {
            crate::binary64_laws::law_sums_are_monotone(link.rtt_ms, slower.rtt_ms, a);
        }
    }
}

/// Running two operations as one is advised just where it saves at least what the advisor asks for, and
/// always where the link between them carries nothing.
pub proof fn law_advice_follows_the_saving(advisor: FusionAdvisor, bytes: u64, link: LinkProfile)
    requires
        !advisor.minimum_saved_transfer_ms.nan(),
    ensures
        ({
            let advice = advisor.advice(bytes, link);
            &&& link.transfer_time(bytes) matches Some(time) ==> advice.estimated_saved_transfer_ms == time
            &&& link.transfer_time(bytes) is None ==> advice.should_fuse
                && advice.estimated_saved_transfer_ms.infinite()
            &&& !advice.estimated_saved_transfer_ms.nan() ==> (advice.should_fuse
                <==> !advice.estimated_saved_transfer_ms.less(advisor.minimum_saved_transfer_ms))
        }),
{
}

proof fn lemma_missing(inputs: Seq<ObjectId>, objects: Map<u128, ObjectModel>, i: int)
    requires
        0 <= i <= inputs.len(),
    ensures
        match crate::scheduler::missing_from(inputs, objects, i) {
            Some(id) => !objects.contains_key(id.0) && exists|j: int|
                i <= j < inputs.len() && #[trigger] inputs[j] == id && forall|l: int|
                    i <= l < j ==> objects.contains_key((#[trigger] inputs[l]).0),
            None => forall|j: int| i <= j < inputs.len() ==> objects.contains_key((#[trigger] inputs[j]).0),
        },
    decreases inputs.len() - i,
{
    if i < inputs.len() {
        if objects.contains_key(inputs[i].0) {
            lemma_missing(inputs, objects, i + 1);
        } else {
            assert(inputs[i] == inputs[i]);
        }
    }
}

/// A task of which an input is not known is refused for the first such input; one of which all are known
/// is refused only where no resource can run it.
pub proof fn law_unknown_inputs_are_named(
    risk_multiplier: Binary64,
    task: TaskModel,
    resources: Seq<ResourceModel>,
    objects: Map<u128, ObjectModel>,
    links: Seq<LinkProfile>,
)
    ensures
        ({
            let decision = crate::scheduler::chosen(risk_multiplier, task, resources, objects, links);
            let known = forall|j: int|
                0 <= j < task.inputs.len() ==> objects.contains_key((#[trigger] task.inputs[j]).0);
            &&& decision matches Err(ScheduleError::MissingObject(id)) ==> exists|j: int|
                {
                    &&& 0 <= j < task.inputs.len()
                    &&& #[trigger] task.inputs[j] == id
                    &&& !objects.contains_key(id.0)
                    &&& forall|l: int| 0 <= l < j ==> objects.contains_key((#[trigger] task.inputs[l]).0)
                }
            &&& !known <==> (decision matches Err(ScheduleError::MissingObject(_)))
            &&& decision matches Err(ScheduleError::NoCandidate) ==> forall|x: int|
                0 <= x < resources.len() ==> (#[trigger] crate::scheduler::placed(
                    risk_multiplier,
                    task,
                    resources[x],
                    objects,
                    links,
                )) is None
        }),
{
    lemma_missing(task.inputs, objects, 0);
    lemma_no_candidate(risk_multiplier, task, resources, objects, links, resources.len());
}

proof fn lemma_no_candidate(
    risk_multiplier: Binary64,
    task: TaskModel,
    resources: Seq<ResourceModel>,
    objects: Map<u128, ObjectModel>,
    links: Seq<LinkProfile>,
    k: nat,
)
    requires
        k <= resources.len(),
    ensures
        crate::scheduler::cheapest(risk_multiplier, task, resources, objects, links, k) is None ==> forall|x: int|
            0 <= x < k ==> (#[trigger] crate::scheduler::placed(
                risk_multiplier,
                task,
                resources[x],
                objects,
                links,
            )) is None,
    decreases k,
{
    if k > 0 {
        lemma_no_candidate(risk_multiplier, task, resources, objects, links, (k - 1) as nat);
    }
}

/// Two places are near just where they are the same or the round-trip time between them is known and not
/// above the limit; it does not matter which of them is named first.
pub proof fn law_near_is_within_the_limit(
    links: Seq<LinkProfile>,
    a: ResourceId,
    b: ResourceId,
    limit_ms: Binary64,
)
    requires
        !limit_ms.nan(),
    ensures
        crate::reduction::near(links, a, a, limit_ms),
        crate::reduction::near(links, a, b, limit_ms) <==> crate::reduction::near(links, b, a, limit_ms),
        a != b ==> (crate::reduction::near(links, a, b, limit_ms) <==> (crate::topology::link_between(
            links,
            a,
            b,
        ) matches Some(link) && !link.rtt_ms.nan() && !limit_ms.less(link.rtt_ms))),
{
    crate::topology::law_links_are_symmetric(links, a, b, 0);
}

proof fn lemma_group_is_maximal(grouping: Grouping, places: Seq<Seq<ResourceId>>, start: int, end: int)
    requires
        0 <= start < end <= places.len(),
    ensures
        ({
            let stop = grouping.group_end(places, start, end);
            stop < places.len() && stop - start < grouping.max_fan_in ==> exists|i: int|
                start <= i < stop && !crate::reduction::local(
                    grouping.links,
                    #[trigger] places[i],
                    places[stop],
                    grouping.limit_ms,
                )
        }),
    decreases places.len() - end,
{
    if end < places.len() && end - start < grouping.max_fan_in && grouping.joins(places, start, end) {
        lemma_group_is_maximal(grouping, places, start, end + 1);
    }
}

/// A group of objects that are near each other ends only with the last object, where it is full, or
/// before one that is not near all of its members.
pub proof fn law_local_groups_are_maximal(
    grouping: Grouping,
    places: Seq<Seq<ResourceId>>,
    start: int,
    i: int,
)
    requires
        0 <= start <= places.len(),
        0 <= i < grouping.local_ends(places, start).len(),
    ensures
        ({
            let ends = grouping.local_ends(places, start);
            let begin = crate::reduction::starting(ends, start, i);
            ends[i] < places.len() && ends[i] - begin < grouping.max_fan_in ==> exists|j: int|
                begin <= j < ends[i] && !crate::reduction::local(
                    grouping.links,
                    #[trigger] places[j],
                    places[ends[i]],
                    grouping.limit_ms,
                )
        }),
    decreases places.len() - start,
{
    grouping.lemma_group_end(places, start, start + 1);
    let end = grouping.group_end(places, start, start + 1);
    let rest = grouping.local_ends(places, end);
    let ends = grouping.local_ends(places, start);
    assert(ends == seq![end] + rest);
    if i == 0 {
        lemma_group_is_maximal(grouping, places, start, start + 1);
    } else {
        law_local_groups_are_maximal(grouping, places, end, i - 1);
        assert(ends[i] == rest[i - 1]);
        if i > 1 {
            assert(ends[i - 1] == rest[i - 2]);
        }
    }
}

/// Where no two neighbours are near each other, any that stand next to each other are brought together;
/// then all groups but the last are full.
pub proof fn law_other_groups_are_full(grouping: Grouping, count: int, start: int, i: int)
    requires
        0 <= start <= count,
        grouping.max_fan_in > 0,
        0 <= i < grouping.full_ends(count, start).len() - 1,
    ensures
        ({
            let ends = grouping.full_ends(count, start);
            ends[i] - crate::reduction::starting(ends, start, i) == grouping.max_fan_in
        }),
    decreases count - start,
{
    let ends = grouping.full_ends(count, start);
    let next = start + grouping.max_fan_in;
    let rest = grouping.full_ends(count, next);
    assert(ends == seq![next] + rest);
    if i > 0 {
        law_other_groups_are_full(grouping, count, next, i - 1);
        assert(ends[i] == rest[i - 1]);
        if i > 1 {
            assert(ends[i - 1] == rest[i - 2]);
        }
    }
}

proof fn lemma_remaining_links(links: Seq<LinkProfile>, gone: ResourceId, x: ResourceId, y: ResourceId)
    ensures
        crate::topology::link_between(
            links.filter(|link: LinkProfile| link.from != gone && link.to != gone),
            x,
            y,
        ) == if x == gone || y == gone {
            None
        } else {
            crate::topology::link_between(links, x, y)
        },
    decreases links.len(),
{
    reveal(Seq::filter);
    let stays = |link: LinkProfile| link.from != gone && link.to != gone;
    if links.len() > 0 {
        let shorter = links.drop_last();
        lemma_remaining_links(shorter, gone, x, y);
        assert(links =~= shorter.push(links.last()));
        crate::fabric_laws::lemma_link_from_pushed(shorter, links.last(), 0, x, y);
        if stays(links.last()) {
            crate::fabric_laws::lemma_link_from_pushed(shorter.filter(stays), links.last(), 0, x, y);
        }
    }
}

/// When a resource leaves, just the links go of which it is an end.
pub proof fn law_links_go_with_their_ends(
    a: FabricModel,
    gone: ResourceId,
    x: ResourceId,
    y: ResourceId,
)
    ensures
        crate::topology::link_between(a.without_resource(gone).links, x, y) == if x == gone || y == gone {
            None
        } else {
            crate::topology::link_between(a.links, x, y)
        },
{
    lemma_remaining_links(a.links, gone, x, y);
}

}
