//! Reduction trees: which of the contributions to a role are brought together next.

use std::collections::BTreeMap;
use vstd::prelude::*;

use crate::binary64::Binary64;
use crate::ids::{ObjectId, ResourceId};
use crate::jobs::{ReductionModel, RoleReductionSpec};
use crate::objects::{ObjectMetadata, ObjectModel};
use crate::topology::{LinkProfile, TopologySnapshot};

verus! {

/// Two resources that are the same, or linked by a round-trip time up to a limit.
pub open spec fn near(links: Seq<LinkProfile>, a: ResourceId, b: ResourceId, limit_ms: Binary64) -> bool {
    a == b || (crate::topology::link_between(links, a, b) matches Some(link) && link.rtt_ms.at_most(
        limit_ms,
    ))
}

/// Two objects of which one replica is near one of the other.
pub open spec fn local(
    links: Seq<LinkProfile>,
    a: Seq<ResourceId>,
    b: Seq<ResourceId>,
    limit_ms: Binary64,
) -> bool {
    exists|i: int, j: int|
        0 <= i < a.len() && 0 <= j < b.len() && near(
            links,
            #[trigger] a[i],
            #[trigger] b[j],
            limit_ms,
        )
}

/// How the objects of a level are grouped.
pub struct Grouping {
    pub links: Seq<LinkProfile>,
    pub limit_ms: Binary64,
    pub max_fan_in: nat,
}

impl Grouping {
    /// An object is local to each of those from `start` on that stand before it.
    pub open spec fn joins(self, places: Seq<Seq<ResourceId>>, start: int, at: int) -> bool {
        forall|i: int| start <= i < at ==> local(self.links, #[trigger] places[i], places[at], self.limit_ms)
    }

    /// The end of the group that begins at `start` and reaches to `end` at least: an object joins it as
    /// long as it is local to every member and the group is not full.
    pub open spec fn group_end(self, places: Seq<Seq<ResourceId>>, start: int, end: int) -> int
        decreases places.len() - end,
    {
        if end < 0 || end >= places.len() || end - start >= self.max_fan_in || !self.joins(
            places,
            start,
            end,
        ) {
            end
        } else {
            self.group_end(places, start, end + 1)
        }
    }

    /// The ends of the groups of local objects from `start` on.
    pub open spec fn local_ends(self, places: Seq<Seq<ResourceId>>, start: int) -> Seq<int>
        decreases places.len() - start,
    {
        if start < 0 || start >= places.len() {
            Seq::empty()
        } else {
            proof {
                self.lemma_group_end(places, start, start + 1);
            }
            let end = self.group_end(places, start, start + 1);
            seq![end] + self.local_ends(places, end)
        }
    }

    /// The ends of full groups from `start` on.
    pub open spec fn full_ends(self, count: int, start: int) -> Seq<int>
        decreases count - start,
    {
        if start < 0 || start >= count || self.max_fan_in == 0 {
            Seq::empty()
        } else if start + self.max_fan_in >= count {
            seq![count]
        } else {
            seq![start + self.max_fan_in] + self.full_ends(count, start + self.max_fan_in)
        }
    }

    /// The ends of the groups of a level: of local objects where that brings some together, of any
    /// that stand next to each other otherwise.
    pub open spec fn ends(self, places: Seq<Seq<ResourceId>>) -> Seq<int> {
        let ends = self.local_ends(places, 0);
        if ends.len() < places.len() {
            ends
        } else {
            self.full_ends(places.len() as int, 0)
        }
    }

    /// A group ends after it begins.
    pub proof fn lemma_group_end(self, places: Seq<Seq<ResourceId>>, start: int, end: int)
        requires
            0 <= start < end <= places.len(),
        ensures
            end <= self.group_end(places, start, end) <= places.len(),
        decreases places.len() - end,
    {
        if end < places.len() && end - start < self.max_fan_in && self.joins(places, start, end) {
            self.lemma_group_end(places, start, end + 1);
        }
    }

    /// No group is larger than allowed, unless it is so from the beginning.
    proof fn lemma_group_size(self, places: Seq<Seq<ResourceId>>, start: int, end: int)
        requires
            0 <= start < end <= places.len(),
            end - start <= self.max_fan_in,
        ensures
            self.group_end(places, start, end) - start <= self.max_fan_in,
        decreases places.len() - end,
    {
        if end < places.len() && end - start < self.max_fan_in && self.joins(places, start, end) {
            self.lemma_group_size(places, start, end + 1);
        }
    }

    /// The members of a group are local to each other.
    proof fn lemma_group_local(self, places: Seq<Seq<ResourceId>>, start: int, end: int)
        requires
            0 <= start < end <= places.len(),
            self.all_local(places, start, end),
        ensures
            self.all_local(places, start, self.group_end(places, start, end)),
        decreases places.len() - end,
    {
        if end < places.len() && end - start < self.max_fan_in && self.joins(places, start, end) {
            assert(self.all_local(places, start, end + 1)) by {
                assert forall|i: int, j: int| start <= i < j < end + 1 implies local(
                    self.links,
                    #[trigger] places[i],
                    #[trigger] places[j],
                    self.limit_ms,
                ) by {
                    if j == end {
                        assert(local(self.links, places[i], places[end], self.limit_ms));
                    }
                }
            }
            self.lemma_group_local(places, start, end + 1);
        }
    }

    /// Objects of which each is local to those before it.
    pub open spec fn all_local(self, places: Seq<Seq<ResourceId>>, start: int, end: int) -> bool {
        forall|i: int, j: int|
            start <= i < j < end ==> local(
                self.links,
                #[trigger] places[i],
                #[trigger] places[j],
                self.limit_ms,
            )
    }
}

/// The start of a group, given the ends of all.
pub open spec fn group_start(ends: Seq<int>, i: int) -> int {
    starting(ends, 0, i)
}

/// The start of a group among some that begin at `start`.
pub open spec fn starting(ends: Seq<int>, start: int, i: int) -> int {
    if i <= 0 {
        start
    } else {
        ends[i - 1]
    }
}

/// A group with one object at least and no more than `limit`.
pub open spec fn sized(ends: Seq<int>, start: int, i: int, limit: nat) -> bool {
    0 < ends[i] - starting(ends, start, i) <= limit
}

/// Groups that cover `count` objects from `start` on in order, each with one object at least and no
/// more than `limit`.
pub open spec fn tiles(ends: Seq<int>, start: int, count: int, limit: nat) -> bool {
    &&& forall|i: int| 0 <= i < ends.len() ==> #[trigger] sized(ends, start, i, limit)
    &&& if ends.len() == 0 {
        start == count
    } else {
        ends.last() == count
    }
}

proof fn lemma_tiles_prepend(end: int, rest: Seq<int>, start: int, count: int, limit: nat)
    requires
        start < end,
        end - start <= limit,
        tiles(rest, end, count, limit),
    ensures
        tiles(seq![end] + rest, start, count, limit),
{
    let all = seq![end] + rest;
    assert forall|i: int| 0 <= i < all.len() implies #[trigger] sized(all, start, i, limit) by {
        if i > 0 {
            assert(sized(rest, end, i - 1, limit));
            assert(all[i] == rest[i - 1]);
            if i > 1 {
                assert(all[i - 1] == rest[i - 2]);
            }
        }
    }
    if rest.len() > 0 {
        assert(all.last() == rest.last());
    }
}

proof fn lemma_local_ends(grouping: Grouping, places: Seq<Seq<ResourceId>>, start: int)
    requires
        grouping.max_fan_in > 0,
        0 <= start <= places.len(),
    ensures
        tiles(grouping.local_ends(places, start), start, places.len() as int, grouping.max_fan_in),
        grouping.local_ends(places, start).len() <= places.len() - start,
    decreases places.len() - start,
{
    if start < places.len() {
        grouping.lemma_group_end(places, start, start + 1);
        grouping.lemma_group_size(places, start, start + 1);
        let end = grouping.group_end(places, start, start + 1);
        lemma_local_ends(grouping, places, end);
        lemma_tiles_prepend(
            end,
            grouping.local_ends(places, end),
            start,
            places.len() as int,
            grouping.max_fan_in,
        );
    }
}

proof fn lemma_full_ends(grouping: Grouping, count: int, start: int)
    requires
        grouping.max_fan_in > 0,
        0 <= start <= count,
    ensures
        tiles(grouping.full_ends(count, start), start, count, grouping.max_fan_in),
        grouping.max_fan_in >= 2 && count - start >= 2 ==> grouping.full_ends(count, start).len() < count
            - start,
        grouping.full_ends(count, start).len() <= count - start,
    decreases count - start,
{
    if start < count && start + grouping.max_fan_in < count {
        let end = start + grouping.max_fan_in;
        lemma_full_ends(grouping, count, end);
        lemma_tiles_prepend(end, grouping.full_ends(count, end), start, count, grouping.max_fan_in);
    }
}

/// The groups of a level lie within it.
pub proof fn lemma_ends_within(ends: Seq<int>, count: int, limit: nat, i: int)
    requires
        tiles(ends, 0, count, limit),
        0 <= i < ends.len(),
    ensures
        0 <= group_start(ends, i) < ends[i] <= count,
    decreases ends.len() - i,
{
    if i + 1 < ends.len() {
        lemma_ends_within(ends, count, limit, i + 1);
    }
    lemma_starts_within(ends, count, limit, i);
    assert(sized(ends, 0, i, limit));
}

proof fn lemma_starts_within(ends: Seq<int>, count: int, limit: nat, i: int)
    requires
        tiles(ends, 0, count, limit),
        0 <= i < ends.len(),
    ensures
        0 <= group_start(ends, i),
    decreases i,
{
    if i > 0 {
        lemma_starts_within(ends, count, limit, i - 1);
        assert(sized(ends, 0, i - 1, limit));
    }
}

/// The groups of a level keep the order of the objects: they are of objects that stand next to each
/// other, and cover all of them without gap or overlap. None is empty, or larger than allowed.
pub proof fn law_groups_keep_the_order(grouping: Grouping, places: Seq<Seq<ResourceId>>)
    requires
        grouping.max_fan_in > 0,
    ensures
        tiles(grouping.ends(places), 0, places.len() as int, grouping.max_fan_in),
{
    lemma_local_ends(grouping, places, 0);
    lemma_full_ends(grouping, places.len() as int, 0);
}

/// Each level brings some objects together, as long as there are two: so one is left in the end.
pub proof fn law_levels_make_progress(grouping: Grouping, places: Seq<Seq<ResourceId>>)
    requires
        grouping.max_fan_in >= 2,
        places.len() >= 2,
    ensures
        0 < grouping.ends(places).len() < places.len(),
{
    law_groups_keep_the_order(grouping, places);
    lemma_full_ends(grouping, places.len() as int, 0);
}

/// As long as objects that are local to each other stand next to each other, only such are brought
/// together.
pub proof fn law_local_objects_come_first(grouping: Grouping, places: Seq<Seq<ResourceId>>, i: int)
    requires
        grouping.max_fan_in > 0,
        grouping.local_ends(places, 0).len() < places.len(),
        0 <= i < grouping.ends(places).len(),
    ensures
        grouping.all_local(places, group_start(grouping.ends(places), i), grouping.ends(places)[i]),
{
    lemma_local_groups(grouping, places, 0, i);
}

proof fn lemma_local_groups(grouping: Grouping, places: Seq<Seq<ResourceId>>, start: int, i: int)
    requires
        0 <= start <= places.len(),
        0 <= i < grouping.local_ends(places, start).len(),
    ensures
        ({
            let ends = grouping.local_ends(places, start);
            grouping.all_local(places, starting(ends, start, i), ends[i])
        }),
    decreases places.len() - start,
{
    grouping.lemma_group_end(places, start, start + 1);
    let end = grouping.group_end(places, start, start + 1);
    let rest = grouping.local_ends(places, end);
    let ends = grouping.local_ends(places, start);
    assert(ends == seq![end] + rest);
    if i == 0 {
        grouping.lemma_group_local(places, start, start + 1);
    } else {
        lemma_local_groups(grouping, places, end, i - 1);
        assert(ends[i] == rest[i - 1]);
        if i > 1 {
            assert(ends[i - 1] == rest[i - 2]);
        }
    }
}

/// The grouping that a reduction asks for on a topology.
pub open spec fn grouping_of(links: Seq<LinkProfile>, max_fan_in: u32, locality_rtt_ms: Binary64) -> Grouping {
    Grouping { links, limit_ms: locality_rtt_ms, max_fan_in: max_fan_in as nat }
}

fn is_local(topology: &TopologySnapshot, a: &Vec<ResourceId>, b: &Vec<ResourceId>, limit_ms: Binary64) -> (r:
    bool)
    ensures
        r == local(topology@, a@, b@, limit_ms),
{
    let mut i: usize = 0;
    while i < a.len()
        invariant
            i <= a@.len(),
            forall|x: int, y: int|
                0 <= x < i && 0 <= y < b@.len() ==> !near(
                    topology@,
                    #[trigger] a@[x],
                    #[trigger] b@[y],
                    limit_ms,
                ),
        decreases a@.len() - i,
    {
        let mut j: usize = 0;
        while j < b.len()
            invariant
                i < a@.len(),
                j <= b@.len(),
                forall|x: int, y: int|
                    0 <= x < i && 0 <= y < b@.len() ==> !near(
                        topology@,
                        #[trigger] a@[x],
                        #[trigger] b@[y],
                        limit_ms,
                    ),
                forall|y: int|
                    0 <= y < j ==> !near(topology@, a@[i as int], #[trigger] b@[y], limit_ms),
            decreases b@.len() - j,
        {
            let found = a[i] == b[j] || match topology.link(a[i], b[j]) {
                Some(link) => link.rtt_ms.le(limit_ms),
                None => false,
            };
            if found {
                assert(near(topology@, a@[i as int], b@[j as int], limit_ms));
                return true;
            }
            j = j + 1;
        }
        i = i + 1;
    }
    false
}

fn may_join(
    places: &Vec<Vec<ResourceId>>,
    start: usize,
    at: usize,
    locality_rtt_ms: Binary64,
    topology: &TopologySnapshot,
    Ghost(grouping): Ghost<Grouping>,
) -> (r: bool)
    requires
        start <= at < places@.len(),
        grouping.links == topology@,
        grouping.limit_ms == locality_rtt_ms,
    ensures
        r == grouping.joins(crate::text::views(places@), start as int, at as int),
{
    let ghost model = crate::text::views(places@);
    let mut i: usize = start;
    while i < at
        invariant
            start <= i <= at < places@.len(),
            model == crate::text::views(places@),
            grouping.links == topology@,
            grouping.limit_ms == locality_rtt_ms,
            forall|k: int|
                start <= k < i ==> local(
                    grouping.links,
                    #[trigger] model[k],
                    model[at as int],
                    grouping.limit_ms,
                ),
        decreases at - i,
    {
        assert(model[i as int] == places@[i as int]@);
        assert(model[at as int] == places@[at as int]@);
        if !is_local(topology, &places[i], &places[at], locality_rtt_ms) {
            return false;
        }
        i = i + 1;
    }
    true
}

/// The end of the group of local objects that begins at a given one.
fn grow_group(
    places: &Vec<Vec<ResourceId>>,
    start: usize,
    max_fan_in: u32,
    locality_rtt_ms: Binary64,
    topology: &TopologySnapshot,
) -> (r: usize)
    requires
        start < places@.len(),
    ensures
        start < r <= places@.len(),
        r == grouping_of(topology@, max_fan_in, locality_rtt_ms).group_end(
            crate::text::views(places@),
            start as int,
            start + 1,
        ),
{
    let ghost grouping = grouping_of(topology@, max_fan_in, locality_rtt_ms);
    let ghost model = crate::text::views(places@);
    let count: usize = places.len();
    let mut end: usize = start + 1;
    while end < count && end - start < max_fan_in as usize
        invariant_except_break
            grouping.group_end(model, start as int, start + 1) == grouping.group_end(
                model,
                start as int,
                end as int,
            ),
        invariant
            start < end <= count,
            count == places@.len(),
            model == crate::text::views(places@),
            grouping == grouping_of(topology@, max_fan_in, locality_rtt_ms),
        ensures
            end == grouping.group_end(model, start as int, start + 1),
        decreases count - end,
    {
        if !may_join(places, start, end, locality_rtt_ms, topology, Ghost(grouping)) {
            break;
        }
        end = end + 1;
    }
    end
}

/// The ends of the groups in which the objects at given places are to be reduced next.
pub fn reduction_groups(
    places: &Vec<Vec<ResourceId>>,
    max_fan_in: u32,
    locality_rtt_ms: Binary64,
    topology: &TopologySnapshot,
) -> (r: Vec<usize>)
    requires
        max_fan_in > 0,
    ensures
        r@.len() == grouping_of(topology@, max_fan_in, locality_rtt_ms).ends(
            crate::text::views(places@),
        ).len(),
        forall|i: int|
            0 <= i < r@.len() ==> #[trigger] r@[i] == grouping_of(
                topology@,
                max_fan_in,
                locality_rtt_ms,
            ).ends(crate::text::views(places@))[i],
{
    let ghost grouping = grouping_of(topology@, max_fan_in, locality_rtt_ms);
    let ghost model = crate::text::views(places@);
    let count: usize = places.len();
    let mut ends: Vec<usize> = Vec::new();
    let mut start: usize = 0;
    assert(Seq::<int>::empty() + grouping.local_ends(model, 0) =~= grouping.local_ends(model, 0));
    assert(ends@.map_values(|e: usize| e as int) =~= Seq::<int>::empty());
    while start < count
        invariant
            start <= count,
            count == places@.len(),
            max_fan_in > 0,
            model == crate::text::views(places@),
            grouping == grouping_of(topology@, max_fan_in, locality_rtt_ms),
            ends@.map_values(|e: usize| e as int) + grouping.local_ends(model, start as int)
                == grouping.local_ends(model, 0),
        decreases count - start,
    {
        let ghost rest = grouping.local_ends(model, start as int);
        let end: usize = grow_group(places, start, max_fan_in, locality_rtt_ms, topology);
        let ghost before = ends@.map_values(|e: usize| e as int);
        ends.push(end);
        proof {
            assert(rest == seq![end as int] + grouping.local_ends(model, end as int));
            assert(ends@.map_values(|e: usize| e as int) =~= before.push(end as int));
            assert(before.push(end as int) + grouping.local_ends(model, end as int) =~= before + rest);
        }
        start = end;
    }
    assert(ends@.map_values(|e: usize| e as int) =~= grouping.local_ends(model, 0));
    if ends.len() < count {
        assert forall|i: int| 0 <= i < ends@.len() implies #[trigger] ends@[i] == grouping.ends(model)[i] by {
            assert(ends@.map_values(|e: usize| e as int)[i] == ends@[i] as int);
        }
        return ends;
    }
    fill_groups(count, max_fan_in, Ghost(grouping))
}

fn fill_groups(count: usize, max_fan_in: u32, Ghost(grouping): Ghost<Grouping>) -> (r: Vec<usize>)
    requires
        max_fan_in > 0,
        grouping.max_fan_in == max_fan_in,
    ensures
        r@.len() == grouping.full_ends(count as int, 0).len(),
        forall|i: int|
            0 <= i < r@.len() ==> #[trigger] r@[i] == grouping.full_ends(count as int, 0)[i],
{
    let mut ends: Vec<usize> = Vec::new();
    let mut start: usize = 0;
    assert(ends@.map_values(|e: usize| e as int) + grouping.full_ends(count as int, 0)
        =~= grouping.full_ends(count as int, 0));
    while start < count
        invariant
            start <= count,
            max_fan_in > 0,
            grouping.max_fan_in == max_fan_in,
            ends@.map_values(|e: usize| e as int) + grouping.full_ends(count as int, start as int)
                == grouping.full_ends(count as int, 0),
        decreases count - start,
    {
        let ghost before = ends@.map_values(|e: usize| e as int);
        let ghost rest = grouping.full_ends(count as int, start as int);
        let end: usize = if count - start <= max_fan_in as usize {
            count
        } else {
            start + max_fan_in as usize
        };
        ends.push(end);
        proof {
            assert(rest =~= seq![end as int] + grouping.full_ends(count as int, end as int));
            assert(ends@.map_values(|e: usize| e as int) =~= before.push(end as int));
            assert(before.push(end as int) + grouping.full_ends(count as int, end as int) =~= before
                + rest);
        }
        start = end;
    }
    assert(ends@.map_values(|e: usize| e as int) =~= grouping.full_ends(count as int, 0));
    assert forall|i: int| 0 <= i < ends@.len() implies #[trigger] ends@[i] == grouping.full_ends(
        count as int,
        0,
    )[i] by {
        assert(ends@.map_values(|e: usize| e as int)[i] == ends@[i] as int);
    }
    ends
}

/// Where objects are.
pub open spec fn places_of(objects: Map<u128, ObjectModel>, ids: Seq<ObjectId>) -> Seq<Seq<ResourceId>> {
    Seq::new(
        ids.len(),
        |i: int|
            if objects.contains_key(ids[i].0) {
                objects[ids[i].0].locations
            } else {
                Seq::empty()
            },
    )
}

/// Objects in groups that end at given places.
pub open spec fn groups_of(objects: Seq<ObjectId>, ends: Seq<int>) -> Seq<Seq<ObjectId>> {
    Seq::new(
        ends.len(),
        |i: int| objects.subrange(group_start(ends, i), ends[i]),
    )
}

/// The groups in which objects are reduced next.
pub open spec fn level_groups(
    links: Seq<LinkProfile>,
    reduction: ReductionModel,
    objects: Map<u128, ObjectModel>,
    ids: Seq<ObjectId>,
) -> Seq<Seq<ObjectId>> {
    groups_of(
        ids,
        grouping_of(links, reduction.max_fan_in, reduction.locality_rtt_ms).ends(places_of(objects, ids)),
    )
}

fn slice_objects(objects: &Vec<ObjectId>, start: usize, end: usize) -> (r: Vec<ObjectId>)
    requires
        start <= end <= objects@.len(),
    ensures
        r@ == objects@.subrange(start as int, end as int),
{
    let mut part: Vec<ObjectId> = Vec::new();
    let mut i: usize = start;
    while i < end
        invariant
            start <= i <= end <= objects@.len(),
            part@ == objects@.subrange(start as int, i as int),
        decreases end - i,
    {
        part.push(objects[i]);
        i = i + 1;
    }
    part
}

fn locate(objects: &BTreeMap<u128, ObjectMetadata>, ids: &Vec<ObjectId>) -> (r: Vec<Vec<ResourceId>>)
    ensures
        crate::text::views(r@) == places_of(crate::collections::modeled(objects@), ids@),
{
    let ghost model = crate::collections::modeled(objects@);
    let mut places: Vec<Vec<ResourceId>> = Vec::new();
    let mut i: usize = 0;
    while i < ids.len()
        invariant
            i <= ids@.len(),
            model == crate::collections::modeled(objects@),
            places@.len() == i,
            forall|j: int| 0 <= j < i ==> (#[trigger] places@[j])@ == places_of(model, ids@)[j],
        decreases ids@.len() - i,
    {
        let place = match objects.get(&ids[i].0) {
            Some(object) => object.locations.clone(),
            None => Vec::new(),
        };
        assert(place@ =~= places_of(model, ids@)[i as int]);
        places.push(place);
        i = i + 1;
    }
    assert(crate::text::views(places@) =~= places_of(model, ids@));
    places
}

/// Groups objects for the next level of a reduction.
pub fn group_objects(
    objects: &BTreeMap<u128, ObjectMetadata>,
    topology: &TopologySnapshot,
    reduction: &RoleReductionSpec,
    ids: &Vec<ObjectId>,
) -> (r: Vec<Vec<ObjectId>>)
    requires
        reduction.max_fan_in > 0,
    ensures
        crate::text::views(r@) == level_groups(
            topology@,
            reduction@,
            crate::collections::modeled(objects@),
            ids@,
        ),
{
    let places = locate(objects, ids);
    let ghost located = places_of(crate::collections::modeled(objects@), ids@);
    let ends = reduction_groups(&places, reduction.max_fan_in, reduction.locality_rtt_ms, topology);
    let ghost grouping = grouping_of(topology@, reduction.max_fan_in, reduction.locality_rtt_ms);
    let ghost bounds = grouping.ends(located);
    proof {
        law_groups_keep_the_order(grouping, located);
    }
    let mut groups: Vec<Vec<ObjectId>> = Vec::new();
    let mut start: usize = 0;
    let mut k: usize = 0;
    while k < ends.len()
        invariant
            k <= ends@.len() == bounds.len(),
            forall|j: int| 0 <= j < ends@.len() ==> #[trigger] ends@[j] == bounds[j],
            start == group_start(bounds, k as int),
            start <= ids@.len(),
            located.len() == ids@.len(),
            tiles(bounds, 0, located.len() as int, grouping.max_fan_in),
            groups@.len() == k,
            forall|j: int| 0 <= j < k ==> (#[trigger] groups@[j])@ == groups_of(ids@, bounds)[j],
        decreases ends@.len() - k,
    {
        let end: usize = ends[k];
        proof {
            lemma_ends_within(bounds, located.len() as int, grouping.max_fan_in, k as int);
        }
        let group = slice_objects(ids, start, end);
        groups.push(group);
        start = end;
        k = k + 1;
    }
    assert(crate::text::views(groups@) =~= groups_of(ids@, bounds));
    groups
}

}
