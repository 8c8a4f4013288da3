//! Linear chains of roles: separate execution stage by stage, against fusing a prefix.

use std::collections::BTreeMap;
use vstd::prelude::*;

use crate::binary64::Binary64;
use crate::collections::{keys_of, least_unused};
use crate::fusion::{
    fused_implementation_choices, fused_pipeline_task, is_fusable_role, FusedChoiceModel,
    FusedImplementationChoice,
};
use crate::ids::{ObjectId, ResourceId, TaskId};
use crate::jobs::{ImplementationModel, LogicalRoleModel, LogicalRoleSpec};
use crate::objects::{ObjectMetadata, ObjectModel};
use crate::resources::ResourceDescriptor;
use crate::scheduler::{FusionAdvisor, PlacementBreakdown, TopologyAwareScheduler};
use crate::shards::ContextModel;
use crate::tasks::{TaskModel, TaskSpec};
use crate::topology::TopologySnapshot;

verus! {

broadcast use vstd::std_specs::btree::group_btree_axioms;

pub struct FusionContext<'a> {
    pub scheduler: &'a TopologyAwareScheduler,
    pub advisor: &'a FusionAdvisor,
    pub resources: &'a Vec<ResourceDescriptor>,
    pub objects: &'a BTreeMap<u128, ObjectMetadata>,
    pub topology: &'a TopologySnapshot,
}

pub struct FusionModel {
    pub context: ContextModel,
    pub advisor: FusionAdvisor,
}

impl<'a> View for FusionContext<'a> {
    type V = FusionModel;

    open spec fn view(&self) -> FusionModel {
        FusionModel {
            context: ContextModel {
                risk_multiplier: self.scheduler.risk_multiplier,
                resources: crate::text::views(self.resources@),
                objects: crate::collections::modeled(self.objects@),
                links: self.topology@,
            },
            advisor: *self.advisor,
        }
    }
}

/// The best way found to run the first stages of a chain separately, with the last of them on a
/// given implementation and resource.
#[derive(Clone, Copy, Debug, PartialEq)]
pub struct SeparateChainState {
    pub implementation_index: usize,
    pub resource_id: ResourceId,
    pub output_bytes: u64,
    pub total_ms: Binary64,
    pub cross_transfer_ms: Binary64,
    pub has_cross_resource_edge: bool,
    pub has_fusion_trigger_edge: bool,
}

impl SeparateChainState {
    /// States of which only the better one is kept.
    pub open spec fn same_key(self, other: SeparateChainState) -> bool {
        &&& self.implementation_index == other.implementation_index
        &&& self.resource_id == other.resource_id
        &&& self.has_cross_resource_edge == other.has_cross_resource_edge
        &&& self.has_fusion_trigger_edge == other.has_fusion_trigger_edge
    }

    /// Costs less, or as much with more time spent on transfers.
    pub open spec fn improves(self, current: SeparateChainState) -> bool {
        ||| self.total_ms.less(current.total_ms)
        ||| self.total_ms.at_most(current.total_ms) && current.total_ms.at_most(self.total_ms)
            && current.cross_transfer_ms.less(self.cross_transfer_ms)
    }
}

/// The position of the state with the key of a candidate, from `i` on; the length if there is none.
pub open spec fn key_position(
    states: Seq<SeparateChainState>,
    candidate: SeparateChainState,
    i: int,
) -> int
    decreases states.len() - i,
{
    if i < 0 || i >= states.len() {
        states.len() as int
    } else if states[i].same_key(candidate) {
        i
    } else {
        key_position(states, candidate, i + 1)
    }
}

/// The states with a candidate among them where it is new, or improves on the one with its key.
pub open spec fn inserted(states: Seq<SeparateChainState>, candidate: SeparateChainState) -> Seq<
    SeparateChainState,
> {
    let i = key_position(states, candidate, 0);
    if i >= states.len() {
        states.push(candidate)
    } else if candidate.improves(states[i]) {
        states.update(i, candidate)
    } else {
        states
    }
}

pub fn insert_better_chain_state(states: &mut Vec<SeparateChainState>, candidate: SeparateChainState)
    ensures
        final(states)@ == inserted(old(states)@, candidate),
{
    let mut i: usize = 0;
    while i < states.len()
        invariant
            i <= states@.len(),
            states@ == old(states)@,
            key_position(states@, candidate, 0) == key_position(states@, candidate, i as int),
        decreases states@.len() - i,
    {
        let current = states[i];
        if current.implementation_index == candidate.implementation_index && current.resource_id
            == candidate.resource_id && current.has_cross_resource_edge
            == candidate.has_cross_resource_edge && current.has_fusion_trigger_edge
            == candidate.has_fusion_trigger_edge {
            if candidate.total_ms.lt(current.total_ms) || (candidate.total_ms.le(current.total_ms)
                && current.total_ms.le(candidate.total_ms) && current.cross_transfer_ms.lt(
                candidate.cross_transfer_ms,
            )) {
                states.set(i, candidate);
            }
            return;
        }
        i = i + 1;
    }
    states.push(candidate);
}

/// The identifiers of the inputs of the first `k` implementations.
pub open spec fn input_ids(implementations: Seq<ImplementationModel>, k: nat) -> Seq<u128>
    decreases k,
{
    if k == 0 {
        Seq::empty()
    } else {
        input_ids(implementations, (k - 1) as nat) + implementations[k - 1].task.inputs.map_values(
            |id: ObjectId| id.0,
        )
    }
}

/// The identifiers of the inputs of the first `n` roles.
pub open spec fn role_input_ids(roles: Seq<LogicalRoleModel>, n: nat) -> Seq<u128>
    decreases n,
{
    if n == 0 {
        Seq::empty()
    } else {
        role_input_ids(roles, (n - 1) as nat) + input_ids(
            roles[n - 1].implementations,
            roles[n - 1].implementations.len(),
        )
    }
}

/// An identifier for an object that is only predicted: the least one that no known object and no
/// input of the given roles has.
pub open spec fn placeholder(objects: Map<u128, ObjectModel>, mentioned: Seq<u128>) -> ObjectId {
    ObjectId(
        crate::collections::least_absent(
            (crate::collections::sorted(objects.dom()) + mentioned).to_set(),
        ),
    )
}

/// The record of an object that is only predicted.
pub open spec fn predicted_object(id: ObjectId, size_bytes: u64, location: ResourceId) -> ObjectModel {
    ObjectModel {
        id,
        size_bytes,
        digest: None,
        encoding: None,
        locations: seq![location],
        producer: None,
    }
}

pub fn predict_object(id: ObjectId, size_bytes: u64, location: ResourceId) -> (r: ObjectMetadata)
    ensures
        r@ == predicted_object(id, size_bytes, location),
{
    let mut locations: Vec<ResourceId> = Vec::new();
    locations.push(location);
    ObjectMetadata { id, size_bytes, digest: None, encoding: None, locations, producer: None }
}

fn push_input_ids(ids: &mut Vec<u128>, role: &LogicalRoleSpec)
    ensures
        final(ids)@ == old(ids)@ + input_ids(role@.implementations, role@.implementations.len()),
{
    let mut k: usize = 0;
    assert(ids@ + input_ids(role@.implementations, 0) =~= ids@);
    while k < role.implementations.len()
        invariant
            k <= role.implementations@.len(),
            ids@ == old(ids)@ + input_ids(role@.implementations, k as nat),
        decreases role.implementations@.len() - k,
    {
        let inputs = &role.implementations[k].task.inputs;
        assert(role@.implementations[k as int] == role.implementations@[k as int]@);
        let ghost mapped = inputs@.map_values(|id: ObjectId| id.0);
        let ghost before = ids@;
        let mut j: usize = 0;
        assert(before + mapped.take(0) =~= before);
        while j < inputs.len()
            invariant
                j <= inputs@.len(),
                mapped == inputs@.map_values(|id: ObjectId| id.0),
                ids@ == before + mapped.take(j as int),
            decreases inputs@.len() - j,
        {
            ids.push(inputs[j].0);
            assert(mapped.take(j + 1) =~= mapped.take(j as int).push(mapped[j as int]));
            j = j + 1;
        }
        assert(mapped.take(mapped.len() as int) =~= mapped);
        assert(ids@ =~= old(ids)@ + input_ids(role@.implementations, (k + 1) as nat));
        k = k + 1;
    }
}

/// The identifiers of the inputs of some roles.
pub fn collect_input_ids(roles: &Vec<LogicalRoleSpec>) -> (ids: Vec<u128>)
    ensures
        ids@ == role_input_ids(crate::text::views(roles@), roles@.len()),
{
    let ghost model = crate::text::views(roles@);
    let mut ids: Vec<u128> = Vec::new();
    let mut n: usize = 0;
    while n < roles.len()
        invariant
            n <= roles@.len(),
            model == crate::text::views(roles@),
            ids@ == role_input_ids(model, n as nat),
        decreases roles@.len() - n,
    {
        assert(model[n as int] == roles@[n as int]@);
        push_input_ids(&mut ids, &roles[n]);
        n = n + 1;
    }
    ids
}

/// An identifier for an object that is only predicted.
pub fn placeholder_id(objects: &BTreeMap<u128, ObjectMetadata>, mentioned: &Vec<u128>) -> (id: ObjectId)
    ensures
        id == placeholder(crate::collections::modeled(objects@), mentioned@),
        !objects@.contains_key(id.0),
        !mentioned@.contains(id.0),
{
    let mut used = keys_of(objects);
    let ghost keys = used@;
    let mut i: usize = 0;
    assert(keys + mentioned@.take(0) =~= keys);
    while i < mentioned.len()
        invariant
            i <= mentioned@.len(),
            used@ == keys + mentioned@.take(i as int),
        decreases mentioned@.len() - i,
    {
        used.push(mentioned[i]);
        assert(mentioned@.take(i + 1) =~= mentioned@.take(i as int).push(mentioned@[i as int]));
        i = i + 1;
    }
    let id: u128 = least_unused(&used);
    proof {
        assert(mentioned@.take(mentioned@.len() as int) =~= mentioned@);
        assert(crate::collections::modeled(objects@).dom() =~= objects@.dom());
        assert(used@ == keys + mentioned@);
        if objects@.contains_key(id) {
            assert(keys.to_set().contains(id));
            let k = choose|k: int| 0 <= k < keys.len() && keys[k] == id;
            assert(used@[k] == id);
        }
        if mentioned@.contains(id) {
            let k = choose|k: int| 0 <= k < mentioned@.len() && mentioned@[k] == id;
            assert(used@[keys.len() + k] == id);
        }
    }
    ObjectId(id)
}

/// The states after one more stage ran a task on the resources from `m` on, from the output of a
/// previous state.
pub open spec fn over_resources(
    f: FusionModel,
    predicted: ContextModel,
    previous: SeparateChainState,
    implementation_index: usize,
    implementation: ImplementationModel,
    task: TaskModel,
    states: Seq<SeparateChainState>,
    m: int,
) -> Option<Seq<SeparateChainState>>
    decreases f.context.resources.len() - m,
{
    if m < 0 || m >= f.context.resources.len() {
        Some(states)
    } else {
        let resource = f.context.resources[m];
        match predicted.placed(task, resource) {
            None => over_resources(
                f,
                predicted,
                previous,
                implementation_index,
                implementation,
                task,
                states,
                m + 1,
            ),
            Some(cost) => {
                let stayed = SeparateChainState {
                    implementation_index,
                    resource_id: resource.id,
                    output_bytes: implementation.task.cost.output_bytes,
                    total_ms: previous.total_ms.sum(cost.total_ms),
                    ..previous
                };
                if previous.resource_id == resource.id {
                    over_resources(
                        f,
                        predicted,
                        previous,
                        implementation_index,
                        implementation,
                        task,
                        inserted(states, stayed),
                        m + 1,
                    )
                } else {
                    match crate::topology::link_between(
                        f.context.links,
                        previous.resource_id,
                        resource.id,
                    ) {
                        None => None,
                        Some(link) => {
                            let advice = f.advisor.advice(previous.output_bytes, link);
                            let moved = SeparateChainState {
                                cross_transfer_ms: previous.cross_transfer_ms.sum(
                                    advice.estimated_saved_transfer_ms,
                                ),
                                has_cross_resource_edge: true,
                                has_fusion_trigger_edge: previous.has_fusion_trigger_edge
                                    || advice.should_fuse,
                                ..stayed
                            };
                            over_resources(
                                f,
                                predicted,
                                previous,
                                implementation_index,
                                implementation,
                                task,
                                inserted(states, moved),
                                m + 1,
                            )
                        },
                    }
                }
            },
        }
    }
}

/// The states after one more stage with the implementations of a role from `k` on.
pub open spec fn over_implementations(
    f: FusionModel,
    previous: SeparateChainState,
    role: LogicalRoleModel,
    states: Seq<SeparateChainState>,
    k: int,
) -> Option<Seq<SeparateChainState>>
    decreases role.implementations.len() - k,
{
    if k < 0 || k >= role.implementations.len() {
        Some(states)
    } else {
        let id = placeholder(
            f.context.objects,
            input_ids(role.implementations, role.implementations.len()),
        );
        let predicted = ContextModel {
            objects: f.context.objects.insert(
                id.0,
                predicted_object(id, previous.output_bytes, previous.resource_id),
            ),
            ..f.context
        };
        match over_resources(
            f,
            predicted,
            previous,
            k as usize,
            role.implementations[k],
            role.implementations[k].task.instantiated(seq![id], crate::shards::anonymous()),
            states,
            0,
        ) {
            None => None,
            Some(next) => over_implementations(f, previous, role, next, k + 1),
        }
    }
}

/// The states after one more stage, from the previous states from `n` on.
pub open spec fn over_states(
    f: FusionModel,
    previous: Seq<SeparateChainState>,
    role: LogicalRoleModel,
    states: Seq<SeparateChainState>,
    n: int,
) -> Option<Seq<SeparateChainState>>
    decreases previous.len() - n,
{
    if n < 0 || n >= previous.len() {
        Some(states)
    } else {
        match over_implementations(f, previous[n], role, states, 0) {
            None => None,
            Some(next) => over_states(f, previous, role, next, n + 1),
        }
    }
}

/// The states after one more stage, if there are any.
pub open spec fn advanced(
    f: FusionModel,
    states: Seq<SeparateChainState>,
    role: LogicalRoleModel,
) -> Option<Seq<SeparateChainState>> {
    match over_states(f, states, role, Seq::empty(), 0) {
        Some(next) if next.len() > 0 => Some(next),
        _ => None,
    }
}

/// A list of states is a given one.
pub open spec fn are_states(
    states: Option<Vec<SeparateChainState>>,
    model: Option<Seq<SeparateChainState>>,
) -> bool {
    match states {
        Some(s) => model == Some(s@),
        None => model is None,
    }
}

fn advance_over_resources(
    context: &FusionContext,
    predicted: &BTreeMap<u128, ObjectMetadata>,
    previous: &SeparateChainState,
    implementation_index: usize,
    output_bytes: u64,
    task: &TaskSpec,
    initial: Vec<SeparateChainState>,
    Ghost(implementation): Ghost<ImplementationModel>,
) -> (r: Option<Vec<SeparateChainState>>)
    requires
        output_bytes == implementation.task.cost.output_bytes,
    ensures
        are_states(
            r,
            over_resources(
                context@,
                (ContextModel {
                    objects: crate::collections::modeled(predicted@),
                    ..context@.context
                }),
                *previous,
                implementation_index,
                implementation,
                (TaskModel { id: crate::shards::anonymous(), ..task@ }),
                initial@,
                0,
            ),
        ),
{
    let ghost f = context@;
    let ghost p = ContextModel {
        objects: crate::collections::modeled(predicted@),
        ..f.context
    };
    let ghost model = TaskModel { id: crate::shards::anonymous(), ..task@ };
    let ghost start = initial@;
    let mut states = initial;
    let mut m: usize = 0;
    while m < context.resources.len()
        invariant
            m <= context.resources@.len(),
            start == initial@,
            output_bytes == implementation.task.cost.output_bytes,
            f == context@,
            p == (ContextModel {
                objects: crate::collections::modeled(predicted@),
                ..f.context
            }),
            model == (TaskModel { id: crate::shards::anonymous(), ..task@ }),
            over_resources(
                f,
                p,
                *previous,
                implementation_index,
                implementation,
                model,
                start,
                0,
            ) == over_resources(
                f,
                p,
                *previous,
                implementation_index,
                implementation,
                model,
                states@,
                m as int,
            ),
        decreases context.resources@.len() - m,
    {
        let resource = &context.resources[m];
        assert(f.context.resources[m as int] == resource@);
        proof {
            crate::shards::lemma_identity_does_not_matter(
                p,
                task@,
                crate::shards::anonymous(),
                resource@,
            );
        }
        if let Some(cost) = context.scheduler.placement_cost(
            task,
            resource,
            predicted,
            context.topology,
        ) {
            let mut state = *previous;
            state.implementation_index = implementation_index;
            state.resource_id = resource.id;
            state.output_bytes = output_bytes;
            state.total_ms = previous.total_ms.add(cost.total_ms);
            if previous.resource_id != resource.id {
                match context.topology.link(previous.resource_id, resource.id) {
                    Some(link) => {
                        let recommendation = context.advisor.evaluate(previous.output_bytes, link);
                        state.cross_transfer_ms = previous.cross_transfer_ms.add(
                            recommendation.estimated_saved_transfer_ms,
                        );
                        state.has_cross_resource_edge = true;
                        state.has_fusion_trigger_edge = previous.has_fusion_trigger_edge
                            || recommendation.should_fuse;
                    },
                    None => {
                        assert(over_resources(
                            f,
                            p,
                            *previous,
                            implementation_index,
                            implementation,
                            model,
                            states@,
                            m as int,
                        ) is None);
                        return None;
                    },
                }
            }
            insert_better_chain_state(&mut states, state);
        }
        m = m + 1;
    }
    Some(states)
}

/// Runs one more stage of a chain after each of the given states.
pub fn advance_chain_states(
    states: &Vec<SeparateChainState>,
    role: &LogicalRoleSpec,
    context: &FusionContext,
) -> (r: Option<Vec<SeparateChainState>>)
    ensures
        are_states(r, advanced(context@, states@, role@)),
{
    let ghost f = context@;
    let mut mentioned: Vec<u128> = Vec::new();
    push_input_ids(&mut mentioned, role);
    let ghost ids = input_ids(role@.implementations, role@.implementations.len());
    assert(mentioned@ =~= ids);
    let intermediate = placeholder_id(context.objects, &mentioned);
    let mut next_states: Vec<SeparateChainState> = Vec::new();
    let mut n: usize = 0;
    while n < states.len()
        invariant
            n <= states@.len(),
            f == context@,
            ids == input_ids(role@.implementations, role@.implementations.len()),
            intermediate == placeholder(f.context.objects, ids),
            over_states(f, states@, role@, Seq::empty(), 0) == over_states(
                f,
                states@,
                role@,
                next_states@,
                n as int,
            ),
        decreases states@.len() - n,
    {
        let previous = states[n];
        let mut predicted = context.objects.clone();
        predicted.insert(
            intermediate.0,
            predict_object(intermediate, previous.output_bytes, previous.resource_id),
        );
        let ghost p = ContextModel {
            objects: f.context.objects.insert(
                intermediate.0,
                predicted_object(intermediate, previous.output_bytes, previous.resource_id),
            ),
            ..f.context
        };
        assert(crate::collections::modeled(predicted@) =~= p.objects);
        let ghost start = next_states@;
        let mut k: usize = 0;
        while k < role.implementations.len()
            invariant
                k <= role.implementations@.len(),
                n < states@.len(),
                previous == states@[n as int],
                f == context@,
                ids == input_ids(role@.implementations, role@.implementations.len()),
                intermediate == placeholder(f.context.objects, ids),
                p == (ContextModel {
                    objects: f.context.objects.insert(
                        intermediate.0,
                        predicted_object(intermediate, previous.output_bytes, previous.resource_id),
                    ),
                    ..f.context
                }),
                crate::collections::modeled(predicted@) == p.objects,
                over_states(f, states@, role@, Seq::empty(), 0) == over_states(
                    f,
                    states@,
                    role@,
                    start,
                    n as int,
                ),
                over_implementations(f, previous, role@, start, 0) == over_implementations(
                    f,
                    previous,
                    role@,
                    next_states@,
                    k as int,
                ),
            decreases role.implementations@.len() - k,
        {
            let implementation = &role.implementations[k];
            assert(role@.implementations[k as int] == implementation@);
            let mut inputs: Vec<ObjectId> = Vec::new();
            inputs.push(intermediate);
            assert(inputs@ =~= seq![intermediate]);
            let task = implementation.task.instantiate(&inputs);
            assert((TaskModel { id: crate::shards::anonymous(), ..task@ })
                == implementation@.task.instantiated(seq![intermediate], crate::shards::anonymous()));
            match advance_over_resources(
                context,
                &predicted,
                &previous,
                k,
                implementation.task.cost.output_bytes,
                &task,
                next_states,
                Ghost(implementation@),
            ) {
                Some(next) => {
                    next_states = next;
                },
                None => {
                    return None;
                },
            }
            k = k + 1;
        }
        n = n + 1;
    }
    if next_states.len() > 0 {
        Some(next_states)
    } else {
        None
    }
}

/// The states after the roles of a chain from `i` to before `n`.
pub open spec fn through_chain(
    f: FusionModel,
    states: Seq<SeparateChainState>,
    chain: Seq<LogicalRoleModel>,
    i: int,
    n: int,
) -> Option<Seq<SeparateChainState>>
    decreases n - i,
{
    if i < 0 || i >= n {
        Some(states)
    } else {
        match advanced(f, states, chain[i]) {
            None => None,
            Some(next) => through_chain(f, next, chain, i + 1, n),
        }
    }
}

/// The states after the first stage, with the resources from `m` on.
pub open spec fn first_over_resources(
    f: FusionModel,
    implementation_index: usize,
    task: TaskModel,
    states: Seq<SeparateChainState>,
    m: int,
) -> Seq<SeparateChainState>
    decreases f.context.resources.len() - m,
{
    if m < 0 || m >= f.context.resources.len() {
        states
    } else {
        let resource = f.context.resources[m];
        let next = match f.context.placed(task, resource) {
            Some(cost) => inserted(
                states,
                SeparateChainState {
                    implementation_index,
                    resource_id: resource.id,
                    output_bytes: task.cost.output_bytes,
                    total_ms: cost.total_ms,
                    cross_transfer_ms: Binary64 { bits: 0 },
                    has_cross_resource_edge: false,
                    has_fusion_trigger_edge: false,
                },
            ),
            None => states,
        };
        first_over_resources(f, implementation_index, task, next, m + 1)
    }
}

/// The states after the first stage, with the implementations from `k` on.
pub open spec fn first_states(
    f: FusionModel,
    role: LogicalRoleModel,
    dependency_inputs: Seq<ObjectId>,
    states: Seq<SeparateChainState>,
    k: int,
) -> Seq<SeparateChainState>
    decreases role.implementations.len() - k,
{
    if k < 0 || k >= role.implementations.len() {
        states
    } else {
        first_states(
            f,
            role,
            dependency_inputs,
            first_over_resources(
                f,
                k as usize,
                role.implementations[k].task.instantiated(
                    dependency_inputs,
                    crate::shards::anonymous(),
                ),
                states,
                0,
            ),
            k + 1,
        )
    }
}

/// The cheapest of a state and of the states from `i` on, of all of them or of those that cross
/// resources; the first of equals.
pub open spec fn cheapest_state(
    states: Seq<SeparateChainState>,
    crossing: bool,
    i: int,
    best: Option<SeparateChainState>,
) -> Option<SeparateChainState>
    decreases states.len() - i,
{
    if i < 0 || i >= states.len() {
        best
    } else if crossing && !states[i].has_cross_resource_edge {
        cheapest_state(states, crossing, i + 1, best)
    } else {
        match best {
            Some(current) if current.total_ms.total_rank() <= states[i].total_ms.total_rank() => cheapest_state(
                states,
                crossing,
                i + 1,
                best,
            ),
            _ => cheapest_state(states, crossing, i + 1, Some(states[i])),
        }
    }
}

/// The cheapest way to run a chain separately, and the cheapest that crosses resources.
#[derive(Clone, Copy, Debug, PartialEq)]
pub struct SeparateChainPaths {
    pub best: SeparateChainState,
    pub best_cross_resource: Option<SeparateChainState>,
}

/// The cheapest ways to run the first `n` roles of a chain separately.
pub open spec fn separate_paths(
    f: FusionModel,
    chain: Seq<LogicalRoleModel>,
    n: int,
    dependency_inputs: Seq<ObjectId>,
) -> Option<SeparateChainPaths> {
    if n <= 0 {
        None
    } else {
        let first = first_states(f, chain[0], dependency_inputs, Seq::empty(), 0);
        if first.len() == 0 {
            None
        } else {
            match through_chain(f, first, chain, 1, n) {
                None => None,
                Some(states) => match cheapest_state(states, false, 0, None) {
                    None => None,
                    Some(best) => Some(
                        SeparateChainPaths {
                            best,
                            best_cross_resource: cheapest_state(states, true, 0, None),
                        },
                    ),
                },
            }
        }
    }
}

/// The least total time of a chain whose roles before `from` took a given time and left their
/// output on a given resource.
pub open spec fn tail_total(
    f: FusionModel,
    chain: Seq<LogicalRoleModel>,
    from: int,
    output_bytes: u64,
    resource_id: ResourceId,
    total_ms: Binary64,
) -> Option<Binary64> {
    let seed = SeparateChainState {
        implementation_index: usize::MAX,
        resource_id,
        output_bytes,
        total_ms,
        cross_transfer_ms: Binary64 { bits: 0 },
        has_cross_resource_edge: false,
        has_fusion_trigger_edge: false,
    };
    match through_chain(f, seq![seed], chain, from, chain.len() as int) {
        None => None,
        Some(states) => match cheapest_state(states, false, 0, None) {
            None => None,
            Some(best) => Some(best.total_ms),
        },
    }
}

fn find_cheapest_state(states: &Vec<SeparateChainState>, crossing: bool) -> (r: Option<SeparateChainState>)
    ensures
        r == cheapest_state(states@, crossing, 0, None),
{
    let mut best: Option<SeparateChainState> = None;
    let mut i: usize = 0;
    while i < states.len()
        invariant
            i <= states@.len(),
            cheapest_state(states@, crossing, 0, None) == cheapest_state(
                states@,
                crossing,
                i as int,
                best,
            ),
        decreases states@.len() - i,
    {
        let state = states[i];
        if !crossing || state.has_cross_resource_edge {
            let replace = match &best {
                Some(current) => state.total_ms.precedes(current.total_ms),
                None => true,
            };
            if replace {
                best = Some(state);
            }
        }
        i = i + 1;
    }
    best
}

fn advance_through(
    context: &FusionContext,
    initial: Vec<SeparateChainState>,
    chain: &Vec<LogicalRoleSpec>,
    from: usize,
    n: usize,
) -> (r: Option<Vec<SeparateChainState>>)
    requires
        from <= n <= chain@.len(),
    ensures
        are_states(
            r,
            through_chain(
                context@,
                initial@,
                crate::text::views(chain@),
                from as int,
                n as int,
            ),
        ),
{
    let ghost model = crate::text::views(chain@);
    let ghost start = initial@;
    let mut states = initial;
    let mut i: usize = from;
    while i < n
        invariant
            from <= i <= n <= chain@.len(),
            start == initial@,
            model == crate::text::views(chain@),
            through_chain(context@, start, model, from as int, n as int) == through_chain(
                context@,
                states@,
                model,
                i as int,
                n as int,
            ),
        decreases n - i,
    {
        assert(model[i as int] == chain@[i as int]@);
        match advance_chain_states(&states, &chain[i], context) {
            Some(next) => {
                states = next;
            },
            None => {
                return None;
            },
        }
        i = i + 1;
    }
    Some(states)
}

fn start_chain(context: &FusionContext, role: &LogicalRoleSpec, dependency_inputs: &Vec<ObjectId>) -> (r: Vec<
    SeparateChainState,
>)
    ensures
        r@ == first_states(context@, role@, dependency_inputs@, Seq::empty(), 0),
{
    let ghost f = context@;
    let mut states: Vec<SeparateChainState> = Vec::new();
    let mut k: usize = 0;
    while k < role.implementations.len()
        invariant
            k <= role.implementations@.len(),
            f == context@,
            first_states(f, role@, dependency_inputs@, Seq::empty(), 0) == first_states(
                f,
                role@,
                dependency_inputs@,
                states@,
                k as int,
            ),
        decreases role.implementations@.len() - k,
    {
        let implementation = &role.implementations[k];
        assert(role@.implementations[k as int] == implementation@);
        let task = implementation.task.instantiate(dependency_inputs);
        let ghost model = implementation@.task.instantiated(
            dependency_inputs@,
            crate::shards::anonymous(),
        );
        assert(model == (TaskModel { id: crate::shards::anonymous(), ..task@ }));
        let ghost start = states@;
        let mut m: usize = 0;
        while m < context.resources.len()
            invariant
                m <= context.resources@.len(),
                f == context@,
                model == (TaskModel { id: crate::shards::anonymous(), ..task@ }),
                first_over_resources(f, k, model, start, 0) == first_over_resources(
                    f,
                    k,
                    model,
                    states@,
                    m as int,
                ),
            decreases context.resources@.len() - m,
        {
            let resource = &context.resources[m];
            assert(f.context.resources[m as int] == resource@);
            proof {
                crate::shards::lemma_identity_does_not_matter(
                    f.context,
                    task@,
                    crate::shards::anonymous(),
                    resource@,
                );
            }
            if let Some(cost) = context.scheduler.placement_cost(
                &task,
                resource,
                context.objects,
                context.topology,
            ) {
                insert_better_chain_state(
                    &mut states,
                    SeparateChainState {
                        implementation_index: k,
                        resource_id: resource.id,
                        output_bytes: task.cost.output_bytes,
                        total_ms: cost.total_ms,
                        cross_transfer_ms: Binary64::from_bits(0),
                        has_cross_resource_edge: false,
                        has_fusion_trigger_edge: false,
                    },
                );
            }
            m = m + 1;
        }
        k = k + 1;
    }
    states
}

/// The cheapest ways to run the first `n` roles of a chain separately.
pub fn separate_chain_paths(
    chain: &Vec<LogicalRoleSpec>,
    n: usize,
    dependency_inputs: &Vec<ObjectId>,
    context: &FusionContext,
) -> (r: Option<SeparateChainPaths>)
    requires
        n <= chain@.len(),
    ensures
        r == separate_paths(
            context@,
            crate::text::views(chain@),
            n as int,
            dependency_inputs@,
        ),
{
    if n == 0 {
        return None;
    }
    assert(crate::text::views(chain@)[0] == chain@[0]@);
    let first = start_chain(context, &chain[0], dependency_inputs);
    if first.len() == 0 {
        return None;
    }
    match advance_through(context, first, chain, 1, n) {
        None => None,
        Some(states) => match find_cheapest_state(&states, false) {
            None => None,
            Some(best) => Some(
                SeparateChainPaths { best, best_cross_resource: find_cheapest_state(&states, true) },
            ),
        },
    }
}

/// The least total time of a chain whose roles before `from` were fused.
pub fn best_chain_tail_total(
    chain: &Vec<LogicalRoleSpec>,
    from: usize,
    previous_output_bytes: u64,
    previous_resource: ResourceId,
    initial_total_ms: Binary64,
    context: &FusionContext,
) -> (r: Option<Binary64>)
    requires
        from <= chain@.len(),
    ensures
        r == tail_total(
            context@,
            crate::text::views(chain@),
            from as int,
            previous_output_bytes,
            previous_resource,
            initial_total_ms,
        ),
{
    let mut seed: Vec<SeparateChainState> = Vec::new();
    seed.push(
        SeparateChainState {
            implementation_index: usize::MAX,
            resource_id: previous_resource,
            output_bytes: previous_output_bytes,
            total_ms: initial_total_ms,
            cross_transfer_ms: Binary64::from_bits(0),
            has_cross_resource_edge: false,
            has_fusion_trigger_edge: false,
        },
    );
    assert(seed@ =~= seq![seed@[0]]);
    match advance_through(context, seed, chain, from, chain.len()) {
        None => None,
        Some(states) => match find_cheapest_state(&states, false) {
            None => None,
            Some(best) => Some(best.total_ms),
        },
    }
}

/// A prefix of a chain as one task, with the placement chosen for it.
pub struct ReadyFusionSelection {
    pub implementations: Vec<String>,
    pub task: TaskSpec,
    pub resource_id: ResourceId,
    pub cost: PlacementBreakdown,
    pub estimated_avoided_transfer_ms: Binary64,
    pub estimated_vs_separate_ms: Binary64,
}

pub struct FusionChoice {
    pub implementations: Seq<Seq<char>>,
    pub task: TaskModel,
    pub resource_id: ResourceId,
    pub cost: PlacementBreakdown,
    pub estimated_avoided_transfer_ms: Binary64,
    pub estimated_vs_separate_ms: Binary64,
}

impl View for ReadyFusionSelection {
    type V = FusionChoice;

    open spec fn view(&self) -> FusionChoice {
        FusionChoice {
            implementations: crate::text::views(self.implementations@),
            task: self.task@,
            resource_id: self.resource_id,
            cost: self.cost,
            estimated_avoided_transfer_ms: self.estimated_avoided_transfer_ms,
            estimated_vs_separate_ms: self.estimated_vs_separate_ms,
        }
    }
}

impl FusionChoice {
    /// The same choice for a task of a given identity.
    pub open spec fn named(self, id: TaskId) -> FusionChoice {
        FusionChoice { task: TaskModel { id, ..self.task }, ..self }
    }

    /// Saves more, then avoids more transfer, then fuses more roles.
    pub open spec fn better(self, current: FusionChoice) -> bool {
        let saved = self.estimated_vs_separate_ms.total_rank();
        let current_saved = current.estimated_vs_separate_ms.total_rank();
        let avoided = self.estimated_avoided_transfer_ms.total_rank();
        let current_avoided = current.estimated_avoided_transfer_ms.total_rank();
        ||| saved > current_saved
        ||| saved == current_saved && avoided > current_avoided
        ||| saved == current_saved && avoided == current_avoided && self.implementations.len()
            > current.implementations.len()
    }
}

/// A selection is a given choice, up to the identity of its task.
pub open spec fn is_fusion(selection: Option<ReadyFusionSelection>, choice: Option<FusionChoice>) -> bool {
    match selection {
        Some(s) => choice matches Some(c) && s@ == c.named(s.task.id),
        None => choice is None,
    }
}

/// The number of roles at the start of a chain, from `i` on, that may be fused.
pub open spec fn fusable_prefix(chain: Seq<LogicalRoleModel>, i: int) -> int
    decreases chain.len() - i,
{
    if i < 0 || i >= chain.len() || !crate::fusion::fusable_role(chain[i]) {
        i
    } else {
        fusable_prefix(chain, i + 1)
    }
}

/// What fusing the first `n` roles of a chain by a given choice of implementations comes to; nothing
/// where it cannot be placed, or costs more than the separate execution of the whole chain.
pub open spec fn fusion_candidate(
    f: FusionModel,
    chain: Seq<LogicalRoleModel>,
    n: int,
    dependency_inputs: Seq<ObjectId>,
    choice: FusedChoiceModel,
    separate_ms: Binary64,
    avoided_ms: Binary64,
) -> Option<FusionChoice> {
    let task = crate::fusion::fused_task(
        choice.tasks,
        dependency_inputs,
        choice.requirements,
        crate::shards::anonymous(),
    );
    match crate::scheduler::chosen(
        f.context.risk_multiplier,
        task,
        f.context.resources,
        f.context.objects,
        f.context.links,
    ) {
        Err(_) => None,
        Ok(decision) => {
            let projected = if n == chain.len() {
                Some(decision.cost.total_ms)
            } else {
                tail_total(
                    f,
                    chain,
                    n,
                    choice.tasks.last().cost.output_bytes,
                    decision.resource_id,
                    decision.cost.total_ms,
                )
            };
            match projected {
                None => None,
                Some(total_ms) => {
                    let saved_ms = separate_ms.difference(total_ms);
                    if saved_ms.less(Binary64 { bits: 0 }) {
                        None
                    } else {
                        Some(
                            FusionChoice {
                                implementations: choice.names,
                                task,
                                resource_id: decision.resource_id,
                                cost: decision.cost,
                                estimated_avoided_transfer_ms: avoided_ms,
                                estimated_vs_separate_ms: saved_ms,
                            },
                        )
                    }
                },
            }
        },
    }
}

/// The better of two fusions; the first of equals.
pub open spec fn better_fusion(best: Option<FusionChoice>, candidate: Option<FusionChoice>) -> Option<
    FusionChoice,
> {
    match candidate {
        None => best,
        Some(c) => match best {
            Some(current) if !c.better(current) => best,
            _ => Some(c),
        },
    }
}

/// The best of a fusion and of fusing the first `n` roles by one of the choices from `i` on.
pub open spec fn over_choices(
    f: FusionModel,
    chain: Seq<LogicalRoleModel>,
    n: int,
    dependency_inputs: Seq<ObjectId>,
    choices: Seq<FusedChoiceModel>,
    separate_ms: Binary64,
    avoided_ms: Binary64,
    i: int,
    best: Option<FusionChoice>,
) -> Option<FusionChoice>
    decreases choices.len() - i,
{
    if i < 0 || i >= choices.len() {
        best
    } else {
        over_choices(
            f,
            chain,
            n,
            dependency_inputs,
            choices,
            separate_ms,
            avoided_ms,
            i + 1,
            better_fusion(
                best,
                fusion_candidate(
                    f,
                    chain,
                    n,
                    dependency_inputs,
                    choices[i],
                    separate_ms,
                    avoided_ms,
                ),
            ),
        )
    }
}

/// The best of a fusion and of fusing a prefix of `n` to `limit` roles. A prefix is considered only
/// where its cheapest execution across resources passes an edge that is worth fusing.
pub open spec fn over_prefixes(
    f: FusionModel,
    chain: Seq<LogicalRoleModel>,
    dependency_inputs: Seq<ObjectId>,
    separate_ms: Binary64,
    n: int,
    limit: int,
    best: Option<FusionChoice>,
) -> Option<FusionChoice>
    decreases limit - n + 1,
{
    if n > limit {
        best
    } else {
        match separate_paths(f, chain, n, dependency_inputs) {
            None => None,
            Some(paths) => {
                let next = match paths.best_cross_resource {
                    Some(crossing) if crossing.has_fusion_trigger_edge => {
                        let choices = crate::fusion::fused_choices(chain, n as nat);
                        over_choices(
                            f,
                            chain,
                            n,
                            dependency_inputs,
                            choices,
                            separate_ms,
                            crossing.cross_transfer_ms,
                            0,
                            best,
                        )
                    },
                    _ => best,
                };
                over_prefixes(f, chain, dependency_inputs, separate_ms, n + 1, limit, next)
            },
        }
    }
}

/// The fusion of a prefix of a chain that saves most against separate execution, if one is no worse.
pub open spec fn best_fusion(
    f: FusionModel,
    chain: Seq<LogicalRoleModel>,
    dependency_inputs: Seq<ObjectId>,
) -> Option<FusionChoice> {
    let limit = fusable_prefix(chain, 0);
    if limit < 2 {
        None
    } else {
        match separate_paths(f, chain, chain.len() as int, dependency_inputs) {
            None => None,
            Some(paths) => over_prefixes(
                f,
                chain,
                dependency_inputs,
                paths.best.total_ms,
                2,
                limit,
                None,
            ),
        }
    }
}

/// The placement of a task does not depend on its identity.
pub proof fn lemma_placement_ignores_identity(context: ContextModel, task: TaskModel, id: TaskId)
    ensures
        crate::scheduler::chosen(
            context.risk_multiplier,
            TaskModel { id, ..task },
            context.resources,
            context.objects,
            context.links,
        ) == crate::scheduler::chosen(
            context.risk_multiplier,
            task,
            context.resources,
            context.objects,
            context.links,
        ),
{
    lemma_cheapest_ignores_identity(context, task, id, context.resources.len());
}

proof fn lemma_cheapest_ignores_identity(context: ContextModel, task: TaskModel, id: TaskId, k: nat)
    ensures
        crate::scheduler::cheapest(
            context.risk_multiplier,
            TaskModel { id, ..task },
            context.resources,
            context.objects,
            context.links,
            k,
        ) == crate::scheduler::cheapest(
            context.risk_multiplier,
            task,
            context.resources,
            context.objects,
            context.links,
            k,
        ),
    decreases k,
{
    if k > 0 {
        lemma_cheapest_ignores_identity(context, task, id, (k - 1) as nat);
        crate::shards::lemma_identity_does_not_matter(context, task, id, context.resources[k - 1]);
    }
}

fn fusion_candidate_is_better(candidate: &ReadyFusionSelection, current: &ReadyFusionSelection) -> (r: bool)
    ensures
        r == candidate@.better(current@),
{
    if current.estimated_vs_separate_ms.precedes(candidate.estimated_vs_separate_ms) {
        return true;
    }
    if candidate.estimated_vs_separate_ms.precedes(current.estimated_vs_separate_ms) {
        return false;
    }
    if current.estimated_avoided_transfer_ms.precedes(candidate.estimated_avoided_transfer_ms) {
        return true;
    }
    if candidate.estimated_avoided_transfer_ms.precedes(current.estimated_avoided_transfer_ms) {
        return false;
    }
    candidate.implementations.len() > current.implementations.len()
}

fn evaluate_fusion(
    context: &FusionContext,
    chain: &Vec<LogicalRoleSpec>,
    n: usize,
    dependency_inputs: &Vec<ObjectId>,
    choice: &FusedImplementationChoice,
    separate_ms: Binary64,
    avoided_ms: Binary64,
) -> (r: Option<ReadyFusionSelection>)
    requires
        n <= chain@.len(),
        choice@.tasks.len() > 0,
    ensures
        is_fusion(
            r,
            fusion_candidate(
                context@,
                crate::text::views(chain@),
                n as int,
                dependency_inputs@,
                choice@,
                separate_ms,
                avoided_ms,
            ),
        ),
{
    let ghost f = context@;
    let task = fused_pipeline_task(&choice.tasks, dependency_inputs, choice.requirements.clone());
    proof {
        lemma_placement_ignores_identity(f.context, task@, crate::shards::anonymous());
        assert((TaskModel { id: crate::shards::anonymous(), ..task@ }) == crate::fusion::fused_task(
            choice@.tasks,
            dependency_inputs@,
            choice@.requirements,
            crate::shards::anonymous(),
        ));
    }
    let decision = match context.scheduler.choose_placement(
        &task,
        context.resources,
        context.objects,
        context.topology,
    ) {
        Ok(decision) => decision,
        Err(_) => {
            return None;
        },
    };
    let projected_total_ms = if n == chain.len() {
        decision.cost.total_ms
    } else {
        let last = &choice.tasks[choice.tasks.len() - 1];
        assert(choice@.tasks.last() == last@);
        match best_chain_tail_total(
            chain,
            n,
            last.cost.output_bytes,
            decision.resource_id,
            decision.cost.total_ms,
            context,
        ) {
            Some(projected) => projected,
            None => {
                return None;
            },
        }
    };
    let estimated_vs_separate_ms = separate_ms.sub(projected_total_ms);
    if estimated_vs_separate_ms.lt(Binary64::from_bits(0)) {
        return None;
    }
    let selection = ReadyFusionSelection {
        implementations: choice.names.clone(),
        task,
        resource_id: decision.resource_id,
        cost: decision.cost,
        estimated_avoided_transfer_ms: avoided_ms,
        estimated_vs_separate_ms,
    };
    assert(selection@.implementations =~= choice@.names);
    Some(selection)
}

/// Every choice picks one implementation and one task for each of the first `n` roles.
proof fn lemma_choices_cover_prefix(chain: Seq<LogicalRoleModel>, n: nat, i: int)
    requires
        0 < n <= chain.len(),
        0 <= i < crate::fusion::fused_choices(chain, n).len(),
    ensures
        crate::fusion::fused_choices(chain, n)[i].tasks.len() == n,
        crate::fusion::fused_choices(chain, n)[i].names.len() == n,
    decreases n,
{
    if n > 1 {
        let before = crate::fusion::fused_choices(chain, (n - 1) as nat);
        assert forall|j: int| 0 <= j < before.len() implies (#[trigger] before[j]).tasks.len() == n - 1
            && before[j].names.len() == n - 1 by {
            lemma_choices_cover_prefix(chain, (n - 1) as nat, j);
        }
        lemma_extended_choices_len(before, chain[n - 1].implementations, before.len(), (n - 1) as nat);
    }
}

proof fn lemma_extended_choices_len(
    choices: Seq<FusedChoiceModel>,
    implementations: Seq<ImplementationModel>,
    m: nat,
    len: nat,
)
    requires
        m <= choices.len(),
        forall|j: int|
            0 <= j < choices.len() ==> (#[trigger] choices[j]).tasks.len() == len
                && choices[j].names.len() == len,
    ensures
        forall|i: int|
            0 <= i < crate::fusion::extended_choices(choices, implementations, m).len() ==> (
            #[trigger] crate::fusion::extended_choices(choices, implementations, m)[i]).tasks.len() == len + 1
                && crate::fusion::extended_choices(choices, implementations, m)[i].names.len() == len + 1,
    decreases m,
{
    if m > 0 {
        lemma_extended_choices_len(choices, implementations, (m - 1) as nat, len);
        lemma_extended_choice_len(choices[m - 1], implementations, implementations.len());
    }
}

proof fn lemma_extended_choice_len(
    choice: FusedChoiceModel,
    implementations: Seq<ImplementationModel>,
    k: nat,
)
    requires
        k <= implementations.len(),
    ensures
        forall|i: int|
            0 <= i < crate::fusion::extended_choice(choice, implementations, k).len() ==> (
            #[trigger] crate::fusion::extended_choice(choice, implementations, k)[i]).tasks.len()
                == choice.tasks.len() + 1 && crate::fusion::extended_choice(
                choice,
                implementations,
                k,
            )[i].names.len() == choice.names.len() + 1,
    decreases k,
{
    if k > 0 {
        lemma_extended_choice_len(choice, implementations, (k - 1) as nat);
    }
}

fn count_fusable_prefix(chain: &Vec<LogicalRoleSpec>) -> (r: usize)
    ensures
        r == fusable_prefix(crate::text::views(chain@), 0),
        r <= chain@.len(),
{
    let ghost model = crate::text::views(chain@);
    let mut i: usize = 0;
    while i < chain.len()
        invariant
            i <= chain@.len(),
            model == crate::text::views(chain@),
            fusable_prefix(model, 0) == fusable_prefix(model, i as int),
        decreases chain@.len() - i,
    {
        assert(model[i as int] == chain@[i as int]@);
        if !is_fusable_role(&chain[i]) {
            return i;
        }
        i = i + 1;
    }
    i
}

/// Chooses the prefix of a chain to run as one task, if fusing pays.
pub fn select_ready_fusion(
    chain: &Vec<LogicalRoleSpec>,
    dependency_inputs: &Vec<ObjectId>,
    context: &FusionContext,
) -> (r: Option<ReadyFusionSelection>)
    ensures
        is_fusion(r, best_fusion(context@, crate::text::views(chain@), dependency_inputs@)),
{
    let ghost f = context@;
    let ghost model = crate::text::views(chain@);
    let limit: usize = count_fusable_prefix(chain);
    if limit < 2 {
        return None;
    }
    let separate_ms = match separate_chain_paths(chain, chain.len(), dependency_inputs, context) {
        Some(paths) => paths.best.total_ms,
        None => {
            return None;
        },
    };
    let mut best: Option<ReadyFusionSelection> = None;
    let ghost mut choice: Option<FusionChoice> = None;
    let mut n: usize = 1;
    while n < limit
        invariant
            1 <= n <= limit,
            limit <= chain@.len(),
            f == context@,
            model == crate::text::views(chain@),
            is_fusion(best, choice),
            best_fusion(f, model, dependency_inputs@) == over_prefixes(
                f,
                model,
                dependency_inputs@,
                separate_ms,
                n + 1,
                limit as int,
                choice,
            ),
        decreases limit - n,
    {
        n = n + 1;
        let paths = match separate_chain_paths(chain, n, dependency_inputs, context) {
            Some(paths) => paths,
            None => {
                return None;
            },
        };
        if let Some(crossing) = paths.best_cross_resource {
            if crossing.has_fusion_trigger_edge {
                let choices = fused_implementation_choices(chain, n);
                let ghost options = crate::text::views(choices@);
                let ghost start = choice;
                let mut i: usize = 0;
                while i < choices.len()
                    invariant
                        i <= choices@.len(),
                        2 <= n <= chain@.len(),
                        f == context@,
                        model == crate::text::views(chain@),
                        options == crate::text::views(choices@),
                        options == crate::fusion::fused_choices(model, n as nat),
                        is_fusion(best, choice),
                        over_choices(
                            f,
                            model,
                            n as int,
                            dependency_inputs@,
                            options,
                            separate_ms,
                            crossing.cross_transfer_ms,
                            0,
                            start,
                        ) == over_choices(
                            f,
                            model,
                            n as int,
                            dependency_inputs@,
                            options,
                            separate_ms,
                            crossing.cross_transfer_ms,
                            i as int,
                            choice,
                        ),
                    decreases choices@.len() - i,
                {
                    proof {
                        lemma_choices_cover_prefix(model, n as nat, i as int);
                        assert(options[i as int] == choices@[i as int]@);
                    }
                    let ghost found = fusion_candidate(
                        f,
                        model,
                        n as int,
                        dependency_inputs@,
                        options[i as int],
                        separate_ms,
                        crossing.cross_transfer_ms,
                    );
                    if let Some(candidate) = evaluate_fusion(
                        context,
                        chain,
                        n,
                        dependency_inputs,
                        &choices[i],
                        separate_ms,
                        crossing.cross_transfer_ms,
                    ) {
                        let replace = match &best {
                            Some(current) => fusion_candidate_is_better(&candidate, current),
                            None => true,
                        };
                        if replace {
                            best = Some(candidate);
                        }
                    }
                    proof {
                        choice = better_fusion(choice, found);
                    }
                    i = i + 1;
                }
            }
        }
    }
    best
}

/// The first `n` roles of a chain may be fused exactly as far as the fusable prefix reaches.
pub proof fn lemma_fusable_prefix(chain: Seq<LogicalRoleModel>, i: int)
    requires
        0 <= i <= chain.len(),
    ensures
        i <= fusable_prefix(chain, i) <= chain.len(),
        forall|k: int|
            i <= k < fusable_prefix(chain, i) ==> crate::fusion::fusable_role(#[trigger] chain[k]),
    decreases chain.len() - i,
{
    if i < chain.len() && crate::fusion::fusable_role(chain[i]) {
        lemma_fusable_prefix(chain, i + 1);
    }
}

/// What a chosen fusion is: of at least two roles, all of which may be fused, as one task, with a
/// projected time of the whole chain that is no worse than separate execution.
pub open spec fn sound_fusion(
    chain: Seq<LogicalRoleModel>,
    dependency_inputs: Seq<ObjectId>,
    choice: FusionChoice,
) -> bool {
    let n = choice.implementations.len();
    &&& 2 <= n <= chain.len()
    &&& forall|k: int| 0 <= k < n ==> crate::fusion::fusable_role(#[trigger] chain[k])
    &&& !choice.estimated_vs_separate_ms.less(Binary64 { bits: 0 })
    &&& exists|i: int|
        {
            &&& 0 <= i < crate::fusion::fused_choices(chain, n).len()
            &&& (#[trigger] crate::fusion::fused_choices(chain, n)[i]).names == choice.implementations
            &&& choice.task == crate::fusion::fused_task(
                crate::fusion::fused_choices(chain, n)[i].tasks,
                dependency_inputs,
                crate::fusion::fused_choices(chain, n)[i].requirements,
                crate::shards::anonymous(),
            )
        }
}

proof fn lemma_over_choices_sound(
    f: FusionModel,
    chain: Seq<LogicalRoleModel>,
    n: int,
    dependency_inputs: Seq<ObjectId>,
    separate_ms: Binary64,
    avoided_ms: Binary64,
    i: int,
    best: Option<FusionChoice>,
)
    requires
        2 <= n <= fusable_prefix(chain, 0),
        0 <= i,
        best matches Some(current) ==> sound_fusion(chain, dependency_inputs, current),
    ensures
        over_choices(
            f,
            chain,
            n,
            dependency_inputs,
            crate::fusion::fused_choices(chain, n as nat),
            separate_ms,
            avoided_ms,
            i,
            best,
        ) matches Some(choice) ==> sound_fusion(chain, dependency_inputs, choice),
    decreases crate::fusion::fused_choices(chain, n as nat).len() - i,
{
    let choices = crate::fusion::fused_choices(chain, n as nat);
    if i < choices.len() {
        let candidate = fusion_candidate(
            f,
            chain,
            n,
            dependency_inputs,
            choices[i],
            separate_ms,
            avoided_ms,
        );
        lemma_fusable_prefix(chain, 0);
        lemma_choices_cover_prefix(chain, n as nat, i);
        if let Some(c) = candidate {
            assert(c.implementations.len() == n);
            assert(crate::fusion::fused_choices(chain, c.implementations.len())[i].names
                == c.implementations);
            assert(sound_fusion(chain, dependency_inputs, c));
        }
        lemma_over_choices_sound(
            f,
            chain,
            n,
            dependency_inputs,
            separate_ms,
            avoided_ms,
            i + 1,
            better_fusion(best, candidate),
        );
    }
}

proof fn lemma_over_prefixes_sound(
    f: FusionModel,
    chain: Seq<LogicalRoleModel>,
    dependency_inputs: Seq<ObjectId>,
    separate_ms: Binary64,
    n: int,
    best: Option<FusionChoice>,
)
    requires
        2 <= n,
        best matches Some(current) ==> sound_fusion(chain, dependency_inputs, current),
    ensures
        over_prefixes(
            f,
            chain,
            dependency_inputs,
            separate_ms,
            n,
            fusable_prefix(chain, 0),
            best,
        ) matches Some(choice) ==> sound_fusion(chain, dependency_inputs, choice),
    decreases fusable_prefix(chain, 0) - n + 1,
{
    let limit = fusable_prefix(chain, 0);
    if n <= limit {
        if let Some(paths) = separate_paths(f, chain, n, dependency_inputs) {
            let next = match paths.best_cross_resource {
                Some(crossing) if crossing.has_fusion_trigger_edge => {
                    lemma_over_choices_sound(
                        f,
                        chain,
                        n,
                        dependency_inputs,
                        separate_ms,
                        crossing.cross_transfer_ms,
                        0,
                        best,
                    );
                    over_choices(
                        f,
                        chain,
                        n,
                        dependency_inputs,
                        crate::fusion::fused_choices(chain, n as nat),
                        separate_ms,
                        crossing.cross_transfer_ms,
                        0,
                        best,
                    )
                },
                _ => best,
            };
            lemma_over_prefixes_sound(f, chain, dependency_inputs, separate_ms, n + 1, next);
        }
    }
}

/// A fusion is only chosen for a prefix of at least two pure builtin roles that are not sharded, and
/// never where the whole chain is projected to take longer than it would separately.
pub proof fn law_fusion_is_sound(
    f: FusionModel,
    chain: Seq<LogicalRoleModel>,
    dependency_inputs: Seq<ObjectId>,
)
    ensures
        best_fusion(f, chain, dependency_inputs) matches Some(choice) ==> sound_fusion(
            chain,
            dependency_inputs,
            choice,
        ),
{
    if fusable_prefix(chain, 0) >= 2 {
        if let Some(paths) = separate_paths(f, chain, chain.len() as int, dependency_inputs) {
            lemma_over_prefixes_sound(f, chain, dependency_inputs, paths.best.total_ms, 2, None);
        }
    }
}

}
