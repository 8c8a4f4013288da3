//! Topology-aware placement: predicted end-to-end cost, and the cheapest feasible resource.

use std::collections::BTreeMap;
use vstd::prelude::*;

use crate::binary64::{Binary64, INFINITE_MAGNITUDE};
use crate::ids::{ObjectId, ResourceId};
use crate::objects::{ObjectMetadata, ObjectModel};
use crate::resources::{ResourceDescriptor, ResourceModel};
use crate::tasks::{TaskModel, TaskSpec};
use crate::text::concat2;
use crate::topology::{LinkProfile, TopologySnapshot};

verus! {

broadcast use vstd::std_specs::btree::group_btree_axioms;

/// The predicted cost of a task on a resource, by cause.
#[derive(Clone, Copy, Debug, PartialEq)]
pub struct PlacementBreakdown {
    pub compute_ms: Binary64,
    pub input_transfer_ms: Binary64,
    pub queue_ms: Binary64,
    pub startup_ms: Binary64,
    pub risk_penalty_ms: Binary64,
    pub total_ms: Binary64,
}

#[derive(Clone, Copy, Debug, PartialEq)]
pub struct PlacementDecision {
    pub resource_id: ResourceId,
    pub cost: PlacementBreakdown,
}

#[derive(Clone, Copy, Debug, PartialEq, Eq)]
pub enum ScheduleError {
    MissingObject(ObjectId),
    NoCandidate,
}

impl ScheduleError {
    pub open spec fn description(self) -> Seq<char> {
        match self {
            ScheduleError::MissingObject(id) => "task references unknown object "@
                + crate::ids::hyphenated(id.0),
            ScheduleError::NoCandidate => "no compatible resource has reachable inputs"@,
        }
    }

    pub fn message(&self) -> (r: String)
        ensures
            r@ == self.description(),
    {
        match self {
            ScheduleError::MissingObject(id) => concat2(
                "task references unknown object ",
                id.text().as_str(),
            ),
            ScheduleError::NoCandidate => "no compatible resource has reachable inputs".to_owned(),
        }
    }
}

/// The cheapest transfer from one of the first `k` replica locations; the first of equals.
pub open spec fn best_transfer(
    links: Seq<LinkProfile>,
    locations: Seq<ResourceId>,
    target: ResourceId,
    bytes: u64,
    k: nat,
) -> Option<Binary64>
    decreases k,
{
    if k == 0 {
        None
    } else {
        let best = best_transfer(links, locations, target, bytes, (k - 1) as nat);
        match crate::topology::transfer_between(links, locations[k - 1], target, bytes) {
            None => best,
            Some(time) => match best {
                Some(current) if current.total_rank() <= time.total_rank() => best,
                _ => Some(time),
            },
        }
    }
}

/// The bytes of an input that a task reads: its range of it, or all of it.
pub open spec fn input_bytes(task: TaskModel, i: int, object: ObjectModel) -> u64 {
    match task.byte_range(i) {
        Some((_, length)) => length,
        None => object.size_bytes,
    }
}

/// The time to bring the first `k` inputs of a task to a resource; nothing if one of them is
/// unknown, or out of reach.
pub open spec fn transfer_of_inputs(
    task: TaskModel,
    target: ResourceId,
    objects: Map<u128, ObjectModel>,
    links: Seq<LinkProfile>,
    k: nat,
) -> Option<Binary64>
    decreases k,
{
    if k == 0 {
        Some(Binary64 { bits: 0 })
    } else {
        match transfer_of_inputs(task, target, objects, links, (k - 1) as nat) {
            None => None,
            Some(before) => {
                let i = k - 1;
                let id = task.inputs[i].0;
                if !objects.contains_key(id) {
                    None
                } else if objects[id].locations.contains(target) {
                    Some(before)
                } else {
                    match best_transfer(
                        links,
                        objects[id].locations,
                        target,
                        input_bytes(task, i, objects[id]),
                        objects[id].locations.len(),
                    ) {
                        None => None,
                        Some(time) => Some(before.sum(time)),
                    }
                }
            },
        }
    }
}

/// The first input from position `i` on that is unknown.
pub open spec fn missing_from(inputs: Seq<ObjectId>, objects: Map<u128, ObjectModel>, i: int) -> Option<
    ObjectId,
>
    decreases inputs.len() - i,
{
    if i < 0 || i >= inputs.len() {
        None
    } else if !objects.contains_key(inputs[i].0) {
        Some(inputs[i])
    } else {
        missing_from(inputs, objects, i + 1)
    }
}

/// The predicted cost of a task on a resource; nothing if an input cannot be brought there.
pub open spec fn scored(
    risk_multiplier: Binary64,
    task: TaskModel,
    resource: ResourceModel,
    objects: Map<u128, ObjectModel>,
    links: Seq<LinkProfile>,
) -> Option<PlacementBreakdown> {
    match transfer_of_inputs(task, resource.id, objects, links, task.inputs.len()) {
        None => None,
        Some(input_transfer_ms) => {
            let nil = Binary64 { bits: 0 };
            let compute_ms = task.cost.compute_ms_on_reference.quotient(resource.performance_score);
            let queue_ms = resource.queue_delay_ms.maximum(nil);
            let startup_ms = resource.startup_delay_ms.maximum(nil);
            let risk_penalty_ms = compute_ms.product(
                resource.failure_probability.clamped(nil, Binary64::nearest_to(1)),
            ).product(risk_multiplier);
            Some(
                PlacementBreakdown {
                    compute_ms,
                    input_transfer_ms,
                    queue_ms,
                    startup_ms,
                    risk_penalty_ms,
                    total_ms: compute_ms.sum(input_transfer_ms).sum(queue_ms).sum(startup_ms).sum(
                        risk_penalty_ms,
                    ),
                },
            )
        },
    }
}

/// The predicted cost of a task on a resource that meets its requirements and can be reached.
pub open spec fn placed(
    risk_multiplier: Binary64,
    task: TaskModel,
    resource: ResourceModel,
    objects: Map<u128, ObjectModel>,
    links: Seq<LinkProfile>,
) -> Option<PlacementBreakdown> {
    if resource.supported(task.requirements) {
        scored(risk_multiplier, task, resource, objects, links)
    } else {
        None
    }
}

/// The cheapest placement among the first `k` resources; the first of equals.
pub open spec fn cheapest(
    risk_multiplier: Binary64,
    task: TaskModel,
    resources: Seq<ResourceModel>,
    objects: Map<u128, ObjectModel>,
    links: Seq<LinkProfile>,
    k: nat,
) -> Option<PlacementDecision>
    decreases k,
{
    if k == 0 {
        None
    } else {
        let best = cheapest(risk_multiplier, task, resources, objects, links, (k - 1) as nat);
        match placed(risk_multiplier, task, resources[k - 1], objects, links) {
            None => best,
            Some(cost) => match best {
                Some(current) if current.cost.total_ms.total_rank() <= cost.total_ms.total_rank() => best,
                _ => Some(PlacementDecision { resource_id: resources[k - 1].id, cost }),
            },
        }
    }
}

/// The placement of a task: the cheapest feasible resource.
pub open spec fn chosen(
    risk_multiplier: Binary64,
    task: TaskModel,
    resources: Seq<ResourceModel>,
    objects: Map<u128, ObjectModel>,
    links: Seq<LinkProfile>,
) -> Result<PlacementDecision, ScheduleError> {
    match missing_from(task.inputs, objects, 0) {
        Some(id) => Err(ScheduleError::MissingObject(id)),
        None => match cheapest(risk_multiplier, task, resources, objects, links, resources.len()) {
            Some(decision) => Ok(decision),
            None => Err(ScheduleError::NoCandidate),
        },
    }
}

#[derive(Clone, Copy, Debug, PartialEq)]
pub struct TopologyAwareScheduler {
    /// Multiplier applied to expected wasted compute from resource failure.
    pub risk_multiplier: Binary64,
}

impl Default for TopologyAwareScheduler {
    fn default() -> (r: TopologyAwareScheduler)
        ensures
            r.risk_multiplier == Binary64::nearest_to(1),
    {
        TopologyAwareScheduler { risk_multiplier: Binary64::from_u64(1) }
    }
}

impl TopologyAwareScheduler {
    pub fn choose_placement(
        &self,
        task: &TaskSpec,
        resources: &Vec<ResourceDescriptor>,
        objects: &BTreeMap<u128, ObjectMetadata>,
        topology: &TopologySnapshot,
    ) -> (r: Result<PlacementDecision, ScheduleError>)
        ensures
            r == chosen(
                self.risk_multiplier,
                task@,
                crate::text::views(resources@),
                crate::collections::modeled(objects@),
                topology@,
            ),
    {
        let ghost model = crate::collections::modeled(objects@);
        let ghost all = crate::text::views(resources@);
        let mut i: usize = 0;
        while i < task.inputs.len()
            invariant
                i <= task.inputs@.len(),
                model == crate::collections::modeled(objects@),
                missing_from(task@.inputs, model, 0) == missing_from(task@.inputs, model, i as int),
                forall|j: int| 0 <= j < i ==> model.contains_key(#[trigger] task@.inputs[j].0),
            decreases task.inputs@.len() - i,
        {
            if !objects.contains_key(&task.inputs[i].0) {
                return Err(ScheduleError::MissingObject(task.inputs[i]));
            }
            i = i + 1;
        }
        let mut best: Option<PlacementDecision> = None;
        let mut k: usize = 0;
        while k < resources.len()
            invariant
                k <= resources@.len(),
                model == crate::collections::modeled(objects@),
                all == crate::text::views(resources@),
                forall|j: int|
                    0 <= j < task@.inputs.len() ==> model.contains_key(#[trigger] task@.inputs[j].0),
                best == cheapest(self.risk_multiplier, task@, all, model, topology@, k as nat),
            decreases resources@.len() - k,
        {
            let resource = &resources[k];
            assert(all[k as int] == resource@);
            if resource.supports(&task.requirements) {
                if let Some(cost) = self.score_candidate(task, resource, objects, topology) {
                    let replace = match &best {
                        Some(current) => cost.total_ms.precedes(current.cost.total_ms),
                        None => true,
                    };
                    if replace {
                        best = Some(PlacementDecision { resource_id: resource.id, cost });
                    }
                }
            }
            k = k + 1;
        }
        match best {
            Some(decision) => Ok(decision),
            None => Err(ScheduleError::NoCandidate),
        }
    }

    /// The predicted cost of a task, whose inputs are known, on a resource.
    fn score_candidate(
        &self,
        task: &TaskSpec,
        resource: &ResourceDescriptor,
        objects: &BTreeMap<u128, ObjectMetadata>,
        topology: &TopologySnapshot,
    ) -> (r: Option<PlacementBreakdown>)
        requires
            forall|j: int|
                0 <= j < task@.inputs.len() ==> crate::collections::modeled(objects@).contains_key(
                    #[trigger] task@.inputs[j].0,
                ),
        ensures
            r == scored(
                self.risk_multiplier,
                task@,
                resource@,
                crate::collections::modeled(objects@),
                topology@,
            ),
    {
        let ghost model = crate::collections::modeled(objects@);
        let compute_ms = task.cost.compute_ms_on_reference.div(resource.performance_score);
        let mut input_transfer_ms = Binary64::from_bits(0);
        let mut i: usize = 0;
        while i < task.inputs.len()
            invariant
                i <= task.inputs@.len(),
                model == crate::collections::modeled(objects@),
                forall|j: int|
                    0 <= j < task@.inputs.len() ==> model.contains_key(#[trigger] task@.inputs[j].0),
                transfer_of_inputs(task@, resource.id, model, topology@, i as nat) == Some(
                    input_transfer_ms,
                ),
            decreases task.inputs@.len() - i,
        {
            let object_id: u128 = task.inputs[i].0;
            assert(model.contains_key(task@.inputs[i as int].0));
            let object = match objects.get(&object_id) {
                Some(object) => object,
                None => return None,
            };
            assert(model[object_id] == object@);
            if !object.is_local_to(resource.id) {
                let bytes: u64 = match task.input_byte_range(i) {
                    Some((_, length)) => length,
                    None => object.size_bytes,
                };
                match cheapest_source(object, resource.id, bytes, topology) {
                    Some(time) => {
                        input_transfer_ms = input_transfer_ms.add(time);
                    },
                    None => {
                        proof {
                            lemma_transfer_stays_impossible(
                                task@,
                                resource.id,
                                model,
                                topology@,
                                (i + 1) as nat,
                                task@.inputs.len(),
                            );
                        }
                        return None;
                    },
                }
            }
            i = i + 1;
        }
        let nil = Binary64::from_bits(0);
        let failure_probability = resource.failure_probability.clamp(nil, Binary64::from_u64(1));
        let risk_penalty_ms = compute_ms.mul(failure_probability).mul(self.risk_multiplier);
        let queue_ms = resource.queue_delay_ms.max(nil);
        let startup_ms = resource.startup_delay_ms.max(nil);
        let total_ms = compute_ms.add(input_transfer_ms).add(queue_ms).add(startup_ms).add(
            risk_penalty_ms,
        );
        Some(
            PlacementBreakdown {
                compute_ms,
                input_transfer_ms,
                queue_ms,
                startup_ms,
                risk_penalty_ms,
                total_ms,
            },
        )
    }

    /// The predicted cost of a task on one resource, if it can run there.
    pub fn placement_cost(
        &self,
        task: &TaskSpec,
        resource: &ResourceDescriptor,
        objects: &BTreeMap<u128, ObjectMetadata>,
        topology: &TopologySnapshot,
    ) -> (r: Option<PlacementBreakdown>)
        ensures
            r == placed(
                self.risk_multiplier,
                task@,
                resource@,
                crate::collections::modeled(objects@),
                topology@,
            ),
    {
        let ghost model = crate::collections::modeled(objects@);
        let mut i: usize = 0;
        while i < task.inputs.len()
            invariant
                i <= task.inputs@.len(),
                model == crate::collections::modeled(objects@),
                forall|j: int| 0 <= j < i ==> model.contains_key(#[trigger] task@.inputs[j].0),
            decreases task.inputs@.len() - i,
        {
            if !objects.contains_key(&task.inputs[i].0) {
                proof {
                    lemma_transfer_stays_impossible(
                        task@,
                        resource.id,
                        model,
                        topology@,
                        (i + 1) as nat,
                        task@.inputs.len(),
                    );
                }
                return None;
            }
            i = i + 1;
        }
        if resource.supports(&task.requirements) {
            self.score_candidate(task, resource, objects, topology)
        } else {
            None
        }
    }
}

/// Inputs that cannot be brought along stay in the way, whatever follows.
proof fn lemma_transfer_stays_impossible(
    task: TaskModel,
    target: ResourceId,
    objects: Map<u128, ObjectModel>,
    links: Seq<LinkProfile>,
    i: nat,
    k: nat,
)
    requires
        transfer_of_inputs(task, target, objects, links, i) is None,
        i <= k,
    ensures
        transfer_of_inputs(task, target, objects, links, k) is None,
    decreases k - i,
{
    if i < k {
        lemma_transfer_stays_impossible(task, target, objects, links, i, (k - 1) as nat);
    }
}

fn cheapest_source(
    object: &ObjectMetadata,
    target: ResourceId,
    bytes: u64,
    topology: &TopologySnapshot,
) -> (r: Option<Binary64>)
    ensures
        r == best_transfer(topology@, object@.locations, target, bytes, object@.locations.len()),
{
    let mut best: Option<Binary64> = None;
    let mut i: usize = 0;
    while i < object.locations.len()
        invariant
            i <= object.locations@.len(),
            best == best_transfer(topology@, object@.locations, target, bytes, i as nat),
        decreases object.locations@.len() - i,
    {
        if let Some(time) = topology.transfer_time_ms(object.locations[i], target, bytes) {
            let replace = match &best {
                Some(current) => time.precedes(*current),
                None => true,
            };
            if replace {
                best = Some(time);
            }
        }
        i = i + 1;
    }
    best
}

/// Position `i` holds the first of the cheapest placements on the first `k` resources.
pub open spec fn first_cheapest(
    risk_multiplier: Binary64,
    task: TaskModel,
    resources: Seq<ResourceModel>,
    objects: Map<u128, ObjectModel>,
    links: Seq<LinkProfile>,
    k: nat,
    i: int,
    decision: PlacementDecision,
) -> bool {
    &&& 0 <= i < k
    &&& decision.resource_id == resources[i].id
    &&& placed(risk_multiplier, task, resources[i], objects, links) == Some(decision.cost)
    &&& forall|j: int|
        0 <= j < k ==> (#[trigger] placed(risk_multiplier, task, resources[j], objects, links) matches Some(
            cost,
        ) ==> if j < i {
            decision.cost.total_ms.total_rank() < cost.total_ms.total_rank()
        } else {
            decision.cost.total_ms.total_rank() <= cost.total_ms.total_rank()
        })
}

/// The cheapest of the first `k` placements is one of them, costs no more than any of them, and
/// stands before those that cost the same.
proof fn lemma_cheapest(
    risk_multiplier: Binary64,
    task: TaskModel,
    resources: Seq<ResourceModel>,
    objects: Map<u128, ObjectModel>,
    links: Seq<LinkProfile>,
    k: nat,
)
    requires
        k <= resources.len(),
    ensures
        match cheapest(risk_multiplier, task, resources, objects, links, k) {
            Some(decision) => exists|i: int|
                first_cheapest(risk_multiplier, task, resources, objects, links, k, i, decision),
            None => forall|j: int|
                0 <= j < k ==> #[trigger] placed(risk_multiplier, task, resources[j], objects, links) is None,
        },
    decreases k,
{
    if k > 0 {
        let m = (k - 1) as nat;
        lemma_cheapest(risk_multiplier, task, resources, objects, links, m);
        let best = cheapest(risk_multiplier, task, resources, objects, links, k);
        match cheapest(risk_multiplier, task, resources, objects, links, m) {
            Some(before) => {
                let i = choose|i: int|
                    first_cheapest(risk_multiplier, task, resources, objects, links, m, i, before);
                if best == Some(before) {
                    assert(first_cheapest(risk_multiplier, task, resources, objects, links, k, i, before));
                } else {
                    assert(first_cheapest(
                        risk_multiplier,
                        task,
                        resources,
                        objects,
                        links,
                        k,
                        k - 1,
                        best.unwrap(),
                    ));
                }
            },
            None => {
                if best is Some {
                    assert(first_cheapest(
                        risk_multiplier,
                        task,
                        resources,
                        objects,
                        links,
                        k,
                        k - 1,
                        best.unwrap(),
                    ));
                }
            },
        }
    }
}

/// The chosen placement is feasible, no feasible placement costs less, and of those that cost the
/// same the first resource is taken.
pub proof fn law_choice_is_cheapest(
    risk_multiplier: Binary64,
    task: TaskModel,
    resources: Seq<ResourceModel>,
    objects: Map<u128, ObjectModel>,
    links: Seq<LinkProfile>,
)
    ensures
        chosen(risk_multiplier, task, resources, objects, links) matches Ok(decision) ==> exists|i: int|
            #[trigger] first_cheapest(
                risk_multiplier,
                task,
                resources,
                objects,
                links,
                resources.len(),
                i,
                decision,
            ) && resources[i].supported(task.requirements),
{
    let k = resources.len();
    lemma_cheapest(risk_multiplier, task, resources, objects, links, k);
    if let Ok(decision) = chosen(risk_multiplier, task, resources, objects, links) {
        let i = choose|i: int|
            first_cheapest(risk_multiplier, task, resources, objects, links, k, i, decision);
        assert(resources[i].supported(task.requirements));
    }
}

proof fn lemma_missing_from(inputs: Seq<ObjectId>, objects: Map<u128, ObjectModel>, i: int)
    requires
        0 <= i <= inputs.len(),
    ensures
        match missing_from(inputs, objects, i) {
            Some(id) => !objects.contains_key(id.0) && exists|j: int|
                i <= j < inputs.len() && #[trigger] inputs[j] == id,
            None => forall|j: int| i <= j < inputs.len() ==> objects.contains_key(#[trigger] inputs[j].0),
        },
    decreases inputs.len() - i,
{
    if i < inputs.len() && objects.contains_key(inputs[i].0) {
        lemma_missing_from(inputs, objects, i + 1);
    }
}

/// A task is placed exactly if all its inputs are known and some resource is feasible; otherwise it
/// names an unknown input, or reports that there is no candidate.
pub proof fn law_placement_succeeds_when_feasible(
    risk_multiplier: Binary64,
    task: TaskModel,
    resources: Seq<ResourceModel>,
    objects: Map<u128, ObjectModel>,
    links: Seq<LinkProfile>,
)
    ensures
        ({
            let known = forall|j: int|
                0 <= j < task.inputs.len() ==> objects.contains_key(#[trigger] task.inputs[j].0);
            let feasible = exists|i: int|
                0 <= i < resources.len() && #[trigger] placed(
                    risk_multiplier,
                    task,
                    resources[i],
                    objects,
                    links,
                ) is Some;
            match chosen(risk_multiplier, task, resources, objects, links) {
                Ok(_) => known && feasible,
                Err(ScheduleError::MissingObject(id)) => !known && !objects.contains_key(id.0)
                    && task.inputs.contains(id),
                Err(ScheduleError::NoCandidate) => known && !feasible,
            }
        }),
{
    lemma_cheapest(risk_multiplier, task, resources, objects, links, resources.len());
    lemma_missing_from(task.inputs, objects, 0);
    if let Some(id) = missing_from(task.inputs, objects, 0) {
        let j = choose|j: int| 0 <= j < task.inputs.len() && #[trigger] task.inputs[j] == id;
        assert(!objects.contains_key(task.inputs[j].0));
    }
}

/// A new resource is an opportunity, never an obligation: with it, a task that could be placed is
/// still placed, at no greater predicted cost.
pub proof fn law_added_resource_never_costs_more(
    risk_multiplier: Binary64,
    task: TaskModel,
    resources: Seq<ResourceModel>,
    added: ResourceModel,
    objects: Map<u128, ObjectModel>,
    links: Seq<LinkProfile>,
)
    ensures
        chosen(risk_multiplier, task, resources, objects, links) matches Ok(before) ==> (chosen(
            risk_multiplier,
            task,
            resources.push(added),
            objects,
            links,
        ) matches Ok(after) && after.cost.total_ms.total_rank() <= before.cost.total_ms.total_rank()),
{
    lemma_cheapest_prefix(risk_multiplier, task, resources, added, objects, links, resources.len());
}

proof fn lemma_cheapest_prefix(
    risk_multiplier: Binary64,
    task: TaskModel,
    resources: Seq<ResourceModel>,
    added: ResourceModel,
    objects: Map<u128, ObjectModel>,
    links: Seq<LinkProfile>,
    k: nat,
)
    requires
        k <= resources.len(),
    ensures
        cheapest(risk_multiplier, task, resources.push(added), objects, links, k) == cheapest(
            risk_multiplier,
            task,
            resources,
            objects,
            links,
            k,
        ),
    decreases k,
{
    if k > 0 {
        lemma_cheapest_prefix(risk_multiplier, task, resources, added, objects, links, (k - 1) as nat);
    }
}

/// Work whose inputs are all on the spot waits for no transfer.
pub proof fn law_local_inputs_cost_no_transfer(
    risk_multiplier: Binary64,
    task: TaskModel,
    resource: ResourceModel,
    objects: Map<u128, ObjectModel>,
    links: Seq<LinkProfile>,
)
    requires
        forall|j: int|
            #![trigger task.inputs[j]]
            0 <= j < task.inputs.len() ==> objects.contains_key(task.inputs[j].0)
                && objects[task.inputs[j].0].locations.contains(resource.id),
    ensures
        scored(risk_multiplier, task, resource, objects, links) matches Some(cost)
            && cost.input_transfer_ms == (Binary64 { bits: 0 }),
{
    lemma_local_inputs(task, resource.id, objects, links, task.inputs.len());
}

proof fn lemma_local_inputs(
    task: TaskModel,
    target: ResourceId,
    objects: Map<u128, ObjectModel>,
    links: Seq<LinkProfile>,
    k: nat,
)
    requires
        k <= task.inputs.len(),
        forall|j: int|
            #![trigger task.inputs[j]]
            0 <= j < task.inputs.len() ==> objects.contains_key(task.inputs[j].0)
                && objects[task.inputs[j].0].locations.contains(target),
    ensures
        transfer_of_inputs(task, target, objects, links, k) == Some(Binary64 { bits: 0 }),
    decreases k,
{
    if k > 0 {
        lemma_local_inputs(task, target, objects, links, (k - 1) as nat);
    }
}

/// Advises whether two stages of a chain should run as one task.
#[derive(Clone, Copy, Debug, PartialEq)]
pub struct FusionAdvisor {
    /// Minimum estimated network time saved before fusion is worth proposing.
    pub minimum_saved_transfer_ms: Binary64,
}

impl Default for FusionAdvisor {
    fn default() -> (r: FusionAdvisor)
        ensures
            r.minimum_saved_transfer_ms == Binary64::nearest_to(20),
    {
        FusionAdvisor { minimum_saved_transfer_ms: Binary64::from_u64(20) }
    }
}

#[derive(Clone, Copy, Debug, PartialEq)]
pub struct FusionRecommendation {
    pub should_fuse: bool,
    pub estimated_saved_transfer_ms: Binary64,
}

/// The time that fusing saves on a link; without end where the link carries nothing.
pub open spec fn saved_transfer(link: LinkProfile, bytes: u64) -> Binary64 {
    match link.transfer_time(bytes) {
        Some(time) => time,
        None => Binary64 { bits: INFINITE_MAGNITUDE },
    }
}

impl FusionAdvisor {
    pub open spec fn advice(self, intermediate_bytes: u64, link: LinkProfile) -> FusionRecommendation {
        FusionRecommendation {
            should_fuse: self.minimum_saved_transfer_ms.at_most(saved_transfer(link, intermediate_bytes)),
            estimated_saved_transfer_ms: saved_transfer(link, intermediate_bytes),
        }
    }

    pub fn evaluate(&self, intermediate_bytes: u64, cross_domain_link: &LinkProfile) -> (r:
        FusionRecommendation)
        ensures
            r == self.advice(intermediate_bytes, *cross_domain_link),
    {
        let estimated_saved_transfer_ms = match cross_domain_link.transfer_time_ms(intermediate_bytes) {
            Some(time) => time,
            None => Binary64::from_bits(INFINITE_MAGNITUDE),
        };
        FusionRecommendation {
            should_fuse: self.minimum_saved_transfer_ms.le(estimated_saved_transfer_ms),
            estimated_saved_transfer_ms,
        }
    }
}

}
