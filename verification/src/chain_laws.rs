//! What holds of chains that run separately: the cheapest way to run one is found without trying
//! every way.

use vstd::prelude::*;

use crate::binary64::Binary64;
use crate::chains::{FusionModel, SeparateChainState};
use crate::fusion::FusedChoiceModel;
use crate::ids::{ObjectId, ResourceId};
use crate::jobs::LogicalRoleModel;
use crate::scheduler::{PlacementDecision, ScheduleError};
use crate::shards::ContextModel;

verus! {

/// How one role of a chain is run: by which implementation and on which resource, by their positions.
pub struct ChainStep {
    pub implementation: int,
    pub resource: int,
}

/// What the first role of a chain comes to.
pub open spec fn first_step(
    f: FusionModel,
    role: LogicalRoleModel,
    dependency_inputs: Seq<ObjectId>,
    step: ChainStep,
) -> Option<SeparateChainState> {
    if !(0 <= step.implementation < role.implementations.len() && 0 <= step.resource
        < f.context.resources.len()) {
        None
    } else {
        let task = role.implementations[step.implementation].task.instantiated(
            dependency_inputs,
            crate::shards::anonymous(),
        );
        let resource = f.context.resources[step.resource];
        match f.context.placed(task, resource) {
            None => None,
            Some(cost) => Some(
                SeparateChainState {
                    implementation_index: step.implementation as usize,
                    resource_id: resource.id,
                    output_bytes: task.cost.output_bytes,
                    total_ms: cost.total_ms,
                    cross_transfer_ms: Binary64 { bits: 0 },
                    has_cross_resource_edge: false,
                    has_fusion_trigger_edge: false,
                },
            ),
        }
    }
}

/// What one more role of a chain comes to, from the output of those before it.
pub open spec fn next_step(
    f: FusionModel,
    previous: SeparateChainState,
    role: LogicalRoleModel,
    step: ChainStep,
) -> Option<SeparateChainState> {
    if !(0 <= step.implementation < role.implementations.len() && 0 <= step.resource
        < f.context.resources.len()) {
        None
    } else {
        let implementation = role.implementations[step.implementation];
        let id = crate::chains::placeholder(
            f.context.objects,
            crate::chains::input_ids(role.implementations, role.implementations.len()),
        );
        let predicted = ContextModel {
            objects: f.context.objects.insert(
                id.0,
                crate::chains::predicted_object(id, previous.output_bytes, previous.resource_id),
            ),
            ..f.context
        };
        let resource = f.context.resources[step.resource];
        match predicted.placed(
            implementation.task.instantiated(seq![id], crate::shards::anonymous()),
            resource,
        ) {
            None => None,
            Some(cost) => {
                let stayed = SeparateChainState {
                    implementation_index: step.implementation as usize,
                    resource_id: resource.id,
                    output_bytes: implementation.task.cost.output_bytes,
                    total_ms: previous.total_ms.sum(cost.total_ms),
                    ..previous
                };
                if previous.resource_id == resource.id {
                    Some(stayed)
                } else {
                    match crate::topology::link_between(
                        f.context.links,
                        previous.resource_id,
                        resource.id,
                    ) {
                        None => None,
                        Some(link) => {
                            let advice = f.advisor.advice(previous.output_bytes, link);
                            Some(
                                SeparateChainState {
                                    cross_transfer_ms: previous.cross_transfer_ms.sum(
                                        advice.estimated_saved_transfer_ms,
                                    ),
                                    has_cross_resource_edge: true,
                                    has_fusion_trigger_edge: previous.has_fusion_trigger_edge
                                        || advice.should_fuse,
                                    ..stayed
                                },
                            )
                        },
                    }
                }
            },
        }
    }
}

/// What running the first roles of a chain in a given way comes to, if they can be run so.
pub open spec fn reached(
    f: FusionModel,
    chain: Seq<LogicalRoleModel>,
    dependency_inputs: Seq<ObjectId>,
    steps: Seq<ChainStep>,
) -> Option<SeparateChainState>
    decreases steps.len(),
{
    if steps.len() == 0 {
        None
    } else if steps.len() == 1 {
        first_step(f, chain[0], dependency_inputs, steps[0])
    } else {
        match reached(f, chain, dependency_inputs, steps.drop_last()) {
            None => None,
            Some(previous) => next_step(f, previous, chain[steps.len() - 1], steps.last()),
        }
    }
}

/// One of some states has the key of a given one and costs no more.
pub open spec fn covers(states: Seq<SeparateChainState>, state: SeparateChainState) -> bool {
    exists|j: int|
        0 <= j < states.len() && (#[trigger] states[j]).same_key(state) && states[j].total_ms.at_most(
            state.total_ms,
        )
}

/// All of some states are of those that are known.
spec fn all_known(states: Seq<SeparateChainState>, known: spec_fn(SeparateChainState) -> bool) -> bool {
    forall|j: int| 0 <= j < states.len() ==> known(#[trigger] states[j])
}

/// Every state that is known costs a number.
spec fn measured(known: spec_fn(SeparateChainState) -> bool) -> bool {
    forall|s: SeparateChainState| #[trigger] known(s) ==> !s.total_ms.nan()
}

proof fn lemma_key_position(states: Seq<SeparateChainState>, candidate: SeparateChainState, i: int)
    requires
        0 <= i <= states.len(),
    ensures
        ({
            let p = crate::chains::key_position(states, candidate, i);
            i <= p <= states.len() && (p < states.len() ==> states[p].same_key(candidate))
        }),
    decreases states.len() - i,
{
    if i < states.len() && !states[i].same_key(candidate) {
        lemma_key_position(states, candidate, i + 1);
    }
}

/// Inserting a state loses nothing.
proof fn lemma_inserted(
    states: Seq<SeparateChainState>,
    candidate: SeparateChainState,
    known: spec_fn(SeparateChainState) -> bool,
)
    requires
        measured(known),
        all_known(states, known),
        known(candidate),
    ensures
        ({
            let next = crate::chains::inserted(states, candidate);
            &&& all_known(next, known)
            &&& covers(next, candidate)
            &&& forall|x: SeparateChainState| #[trigger] covers(states, x) ==> covers(next, x)
        }),
{
    let next = crate::chains::inserted(states, candidate);
    let at = crate::chains::key_position(states, candidate, 0);
    lemma_key_position(states, candidate, 0);
    assert(!candidate.total_ms.nan());
    if at >= states.len() {
        assert(next[states.len() as int] == candidate);
    } else {
        assert(known(states[at]));
        if candidate.improves(states[at]) {
            assert(next[at] == candidate);
        } else {
            assert(next[at] == states[at]);
        }
    }
    assert(covers(next, candidate));
    assert forall|x: SeparateChainState| #[trigger] covers(states, x) implies covers(next, x) by {
        let j = choose|j: int|
            0 <= j < states.len() && (#[trigger] states[j]).same_key(x) && states[j].total_ms.at_most(
                x.total_ms,
            );
        if at < states.len() && j == at && candidate.improves(states[at]) {
            assert(next[at].same_key(x));
        } else {
            assert(next[j] == states[j]);
        }
    }
}

/// What follows from a list of states by some steps: all of it is known, what was covered still is,
/// and so is what the steps lead to.
spec fn keeps(
    states: Seq<SeparateChainState>,
    next: Seq<SeparateChainState>,
    known: spec_fn(SeparateChainState) -> bool,
) -> bool {
    &&& all_known(next, known)
    &&& forall|x: SeparateChainState| #[trigger] covers(states, x) ==> covers(next, x)
}

proof fn lemma_over_resources(
    f: FusionModel,
    previous: SeparateChainState,
    role: LogicalRoleModel,
    k: int,
    states: Seq<SeparateChainState>,
    m: int,
    known: spec_fn(SeparateChainState) -> bool,
)
    requires
        0 <= k < role.implementations.len(),
        0 <= m,
        measured(known),
        all_known(states, known),
        forall|step: ChainStep|
            (#[trigger] next_step(f, previous, role, step)) matches Some(s) ==> known(s),
    ensures
        ({
            let id = crate::chains::placeholder(
                f.context.objects,
                crate::chains::input_ids(role.implementations, role.implementations.len()),
            );
            let predicted = ContextModel {
                objects: f.context.objects.insert(
                    id.0,
                    crate::chains::predicted_object(id, previous.output_bytes, previous.resource_id),
                ),
                ..f.context
            };
            crate::chains::over_resources(
                f,
                predicted,
                previous,
                k as usize,
                role.implementations[k],
                role.implementations[k].task.instantiated(seq![id], crate::shards::anonymous()),
                states,
                m,
            ) matches Some(next) ==> {
                &&& keeps(states, next, known)
                &&& forall|r: int|
                    m <= r < f.context.resources.len() ==> ((#[trigger] next_step(
                        f,
                        previous,
                        role,
                        (ChainStep { implementation: k, resource: r }),
                    )) matches Some(s) ==> covers(next, s))
            }
        }),
    decreases f.context.resources.len() - m,
{
    if m < f.context.resources.len() {
        let step = ChainStep { implementation: k, resource: m };
        match next_step(f, previous, role, step) {
            None => {
                lemma_over_resources(f, previous, role, k, states, m + 1, known);
            },
            Some(candidate) => {
                lemma_inserted(states, candidate, known);
                lemma_over_resources(
                    f,
                    previous,
                    role,
                    k,
                    crate::chains::inserted(states, candidate),
                    m + 1,
                    known,
                );
            },
        }
    }
}

proof fn lemma_over_implementations(
    f: FusionModel,
    previous: SeparateChainState,
    role: LogicalRoleModel,
    states: Seq<SeparateChainState>,
    k: int,
    known: spec_fn(SeparateChainState) -> bool,
)
    requires
        0 <= k,
        measured(known),
        all_known(states, known),
        forall|step: ChainStep|
            (#[trigger] next_step(f, previous, role, step)) matches Some(s) ==> known(s),
    ensures
        crate::chains::over_implementations(f, previous, role, states, k) matches Some(next) ==> {
            &&& keeps(states, next, known)
            &&& forall|step: ChainStep|
                k <= step.implementation ==> ((#[trigger] next_step(f, previous, role, step)) matches Some(
                    s,
                ) ==> covers(next, s))
        },
    decreases role.implementations.len() - k,
{
    if k < role.implementations.len() {
        let id = crate::chains::placeholder(
            f.context.objects,
            crate::chains::input_ids(role.implementations, role.implementations.len()),
        );
        let predicted = ContextModel {
            objects: f.context.objects.insert(
                id.0,
                crate::chains::predicted_object(id, previous.output_bytes, previous.resource_id),
            ),
            ..f.context
        };
        lemma_over_resources(f, previous, role, k, states, 0, known);
        if let Some(between) = crate::chains::over_resources(
            f,
            predicted,
            previous,
            k as usize,
            role.implementations[k],
            role.implementations[k].task.instantiated(seq![id], crate::shards::anonymous()),
            states,
            0,
        ) {
            lemma_over_implementations(f, previous, role, between, k + 1, known);
            if let Some(next) = crate::chains::over_implementations(
                f,
                previous,
                role,
                between,
                k + 1,
            ) {
                assert forall|step: ChainStep| k <= step.implementation implies ((
                #[trigger] next_step(f, previous, role, step)) matches Some(s) ==> covers(next, s)) by {
                    if step.implementation == k {
                        if let Some(s) = next_step(f, previous, role, step) {
                            assert(step == ChainStep { implementation: k, resource: step.resource });
                            assert(covers(between, s));
                        }
                    }
                }
            }
        }
    }
}

proof fn lemma_over_states(
    f: FusionModel,
    previous: Seq<SeparateChainState>,
    role: LogicalRoleModel,
    states: Seq<SeparateChainState>,
    n: int,
    known: spec_fn(SeparateChainState) -> bool,
)
    requires
        0 <= n,
        measured(known),
        all_known(states, known),
        forall|j: int, step: ChainStep|
            0 <= j < previous.len() ==> ((#[trigger] next_step(f, previous[j], role, step)) matches Some(
                s,
            ) ==> known(s)),
    ensures
        crate::chains::over_states(f, previous, role, states, n) matches Some(next) ==> {
            &&& keeps(states, next, known)
            &&& forall|j: int, step: ChainStep|
                n <= j < previous.len() ==> ((#[trigger] next_step(f, previous[j], role, step)) matches Some(
                    s,
                ) ==> covers(next, s))
        },
    decreases previous.len() - n,
{
    if n < previous.len() {
        lemma_over_implementations(f, previous[n], role, states, 0, known);
        if let Some(between) = crate::chains::over_implementations(f, previous[n], role, states, 0) {
            lemma_over_states(f, previous, role, between, n + 1, known);
            if let Some(next) = crate::chains::over_states(f, previous, role, between, n + 1) {
                assert forall|j: int, step: ChainStep| n <= j < previous.len() implies ((
                #[trigger] next_step(f, previous[j], role, step)) matches Some(s) ==> covers(next, s)) by {
                    if j == n {
                        if let Some(s) = next_step(f, previous[n], role, step) {
                            assert(step.implementation >= 0);
                            assert(covers(between, s));
                        }
                    }
                }
            }
        }
    }
}

proof fn lemma_first_over_resources(
    f: FusionModel,
    role: LogicalRoleModel,
    dependency_inputs: Seq<ObjectId>,
    k: int,
    states: Seq<SeparateChainState>,
    m: int,
    known: spec_fn(SeparateChainState) -> bool,
)
    requires
        0 <= k < role.implementations.len(),
        0 <= m,
        measured(known),
        all_known(states, known),
        forall|step: ChainStep|
            (#[trigger] first_step(f, role, dependency_inputs, step)) matches Some(s) ==> known(s),
    ensures
        ({
            let next = crate::chains::first_over_resources(
                f,
                k as usize,
                role.implementations[k].task.instantiated(
                    dependency_inputs,
                    crate::shards::anonymous(),
                ),
                states,
                m,
            );
            &&& keeps(states, next, known)
            &&& forall|r: int|
                m <= r < f.context.resources.len() ==> ((#[trigger] first_step(
                    f,
                    role,
                    dependency_inputs,
                    (ChainStep { implementation: k, resource: r }),
                )) matches Some(s) ==> covers(next, s))
        }),
    decreases f.context.resources.len() - m,
{
    if m < f.context.resources.len() {
        let step = ChainStep { implementation: k, resource: m };
        match first_step(f, role, dependency_inputs, step) {
            None => {
                lemma_first_over_resources(f, role, dependency_inputs, k, states, m + 1, known);
            },
            Some(candidate) => {
                lemma_inserted(states, candidate, known);
                lemma_first_over_resources(
                    f,
                    role,
                    dependency_inputs,
                    k,
                    crate::chains::inserted(states, candidate),
                    m + 1,
                    known,
                );
            },
        }
    }
}

proof fn lemma_first_states(
    f: FusionModel,
    role: LogicalRoleModel,
    dependency_inputs: Seq<ObjectId>,
    states: Seq<SeparateChainState>,
    k: int,
    known: spec_fn(SeparateChainState) -> bool,
)
    requires
        0 <= k,
        measured(known),
        all_known(states, known),
        forall|step: ChainStep|
            (#[trigger] first_step(f, role, dependency_inputs, step)) matches Some(s) ==> known(s),
    ensures
        ({
            let next = crate::chains::first_states(f, role, dependency_inputs, states, k);
            &&& keeps(states, next, known)
            &&& forall|step: ChainStep|
                k <= step.implementation ==> ((#[trigger] first_step(f, role, dependency_inputs, step)) matches Some(
                    s,
                ) ==> covers(next, s))
        }),
    decreases role.implementations.len() - k,
{
    if k < role.implementations.len() {
        let between = crate::chains::first_over_resources(
            f,
            k as usize,
            role.implementations[k].task.instantiated(
                dependency_inputs,
                crate::shards::anonymous(),
            ),
            states,
            0,
        );
        lemma_first_over_resources(f, role, dependency_inputs, k, states, 0, known);
        lemma_first_states(f, role, dependency_inputs, between, k + 1, known);
        let next = crate::chains::first_states(f, role, dependency_inputs, states, k);
        assert forall|step: ChainStep| k <= step.implementation implies ((
        #[trigger] first_step(f, role, dependency_inputs, step)) matches Some(s) ==> covers(next, s)) by {
            if step.implementation == k {
                if let Some(s) = first_step(f, role, dependency_inputs, step) {
                    assert(step == ChainStep { implementation: k, resource: step.resource });
                    assert(covers(between, s));
                }
            }
        }
    }
}

/// No role has more implementations than can be counted.
pub open spec fn countable(chain: Seq<LogicalRoleModel>) -> bool {
    forall|i: int| 0 <= i < chain.len() ==> (#[trigger] chain[i]).implementations.len() <= usize::MAX
}

/// However the first roles of a chain are run, what it takes is a number.
pub open spec fn every_total_is_a_number(
    f: FusionModel,
    chain: Seq<LogicalRoleModel>,
    dependency_inputs: Seq<ObjectId>,
) -> bool {
    forall|steps: Seq<ChainStep>|
        steps.len() <= chain.len() ==> ((#[trigger] reached(f, chain, dependency_inputs, steps)) matches Some(
            s,
        ) ==> !s.total_ms.nan())
}

/// A state that some way of running the first `n` roles leads to.
spec fn reachable(
    f: FusionModel,
    chain: Seq<LogicalRoleModel>,
    dependency_inputs: Seq<ObjectId>,
    n: int,
    state: SeparateChainState,
) -> bool {
    exists|steps: Seq<ChainStep>|
        steps.len() == n && #[trigger] reached(f, chain, dependency_inputs, steps) == Some(state)
}

/// Some states are reachable, and every way of running the first `n` roles is covered by one.
spec fn complete(
    f: FusionModel,
    chain: Seq<LogicalRoleModel>,
    dependency_inputs: Seq<ObjectId>,
    n: int,
    states: Seq<SeparateChainState>,
) -> bool {
    &&& forall|j: int|
        0 <= j < states.len() ==> reachable(f, chain, dependency_inputs, n, #[trigger] states[j])
    &&& forall|steps: Seq<ChainStep>|
        steps.len() == n ==> ((#[trigger] reached(f, chain, dependency_inputs, steps)) matches Some(s)
            ==> covers(states, s))
}

/// What a role puts out depends on its implementation only.
proof fn lemma_reached_bytes(
    f: FusionModel,
    chain: Seq<LogicalRoleModel>,
    dependency_inputs: Seq<ObjectId>,
    steps: Seq<ChainStep>,
)
    requires
        0 < steps.len() <= chain.len(),
        countable(chain),
    ensures
        reached(f, chain, dependency_inputs, steps) matches Some(s) ==> s.output_bytes
            == chain[steps.len() - 1].implementations[s.implementation_index as int].task.cost.output_bytes,
{
    assert(chain[steps.len() - 1].implementations.len() <= usize::MAX);
}

/// From a state that costs no more, a step costs no more.
proof fn lemma_step_order(
    f: FusionModel,
    lower: SeparateChainState,
    upper: SeparateChainState,
    role: LogicalRoleModel,
    step: ChainStep,
)
    requires
        lower.same_key(upper),
        lower.output_bytes == upper.output_bytes,
        lower.total_ms.at_most(upper.total_ms),
        next_step(f, lower, role, step) matches Some(s) ==> !s.total_ms.nan(),
        next_step(f, upper, role, step) matches Some(s) ==> !s.total_ms.nan(),
    ensures
        next_step(f, upper, role, step) matches Some(above) ==> (next_step(f, lower, role, step) matches Some(
            below,
        ) && below.same_key(above) && below.total_ms.at_most(above.total_ms)),
{
    if let Some(above) = next_step(f, upper, role, step) {
        let implementation = role.implementations[step.implementation];
        let id = crate::chains::placeholder(
            f.context.objects,
            crate::chains::input_ids(role.implementations, role.implementations.len()),
        );
        let predicted = ContextModel {
            objects: f.context.objects.insert(
                id.0,
                crate::chains::predicted_object(id, upper.output_bytes, upper.resource_id),
            ),
            ..f.context
        };
        let cost = predicted.placed(
            implementation.task.instantiated(seq![id], crate::shards::anonymous()),
            f.context.resources[step.resource],
        ).unwrap();
        let below = next_step(f, lower, role, step).unwrap();
        assert(below.total_ms == lower.total_ms.sum(cost.total_ms));
        assert(above.total_ms == upper.total_ms.sum(cost.total_ms));
        crate::binary64_laws::law_sums_are_monotone(lower.total_ms, upper.total_ms, cost.total_ms);
    }
}

proof fn lemma_complete_first(
    f: FusionModel,
    chain: Seq<LogicalRoleModel>,
    dependency_inputs: Seq<ObjectId>,
)
    requires
        chain.len() > 0,
        every_total_is_a_number(f, chain, dependency_inputs),
    ensures
        complete(
            f,
            chain,
            dependency_inputs,
            1,
            crate::chains::first_states(f, chain[0], dependency_inputs, Seq::empty(), 0),
        ),
{
    let known = |s: SeparateChainState| reachable(f, chain, dependency_inputs, 1, s);
    let states = crate::chains::first_states(f, chain[0], dependency_inputs, Seq::empty(), 0);
    lemma_reachable_is_measured(f, chain, dependency_inputs, 1, known);
    assert forall|step: ChainStep|
        (#[trigger] first_step(f, chain[0], dependency_inputs, step)) matches Some(s) implies known(
        first_step(f, chain[0], dependency_inputs, step).unwrap(),
    ) by {
        let steps = seq![step];
        assert(reached(f, chain, dependency_inputs, steps) == first_step(
            f,
            chain[0],
            dependency_inputs,
            step,
        ));
    }
    lemma_first_states(f, chain[0], dependency_inputs, Seq::empty(), 0, known);
    assert forall|j: int| 0 <= j < states.len() implies reachable(
        f,
        chain,
        dependency_inputs,
        1,
        #[trigger] states[j],
    ) by {
        assert(known(states[j]));
    }
    assert forall|steps: Seq<ChainStep>| steps.len() == 1 implies ((
    #[trigger] reached(f, chain, dependency_inputs, steps)) matches Some(s) ==> covers(states, s)) by {
        if let Some(s) = reached(f, chain, dependency_inputs, steps) {
            assert(first_step(f, chain[0], dependency_inputs, steps[0]) == Some(s));
        }
    }
}

proof fn lemma_reachable_is_measured(
    f: FusionModel,
    chain: Seq<LogicalRoleModel>,
    dependency_inputs: Seq<ObjectId>,
    n: int,
    known: spec_fn(SeparateChainState) -> bool,
)
    requires
        0 < n <= chain.len(),
        every_total_is_a_number(f, chain, dependency_inputs),
        known == (|s: SeparateChainState| reachable(f, chain, dependency_inputs, n, s)),
    ensures
        measured(known),
{
    assert forall|s: SeparateChainState| #[trigger] known(s) implies !s.total_ms.nan() by {
        let steps = choose|steps: Seq<ChainStep>|
            steps.len() == n && #[trigger] reached(f, chain, dependency_inputs, steps) == Some(s);
        assert(reached(f, chain, dependency_inputs, steps) == Some(s));
    }
}

/// One more role keeps states complete.
proof fn lemma_complete_next(
    f: FusionModel,
    chain: Seq<LogicalRoleModel>,
    dependency_inputs: Seq<ObjectId>,
    i: int,
    states: Seq<SeparateChainState>,
)
    requires
        1 <= i < chain.len(),
        countable(chain),
        every_total_is_a_number(f, chain, dependency_inputs),
        complete(f, chain, dependency_inputs, i, states),
    ensures
        crate::chains::advanced(f, states, chain[i]) matches Some(next) ==> complete(
            f,
            chain,
            dependency_inputs,
            i + 1,
            next,
        ),
{
    let known = |s: SeparateChainState| reachable(f, chain, dependency_inputs, i + 1, s);
    lemma_reachable_is_measured(f, chain, dependency_inputs, i + 1, known);
    assert forall|j: int, step: ChainStep| 0 <= j < states.len() && (#[trigger] next_step(
        f,
        states[j],
        chain[i],
        step,
    )) is Some implies known(next_step(f, states[j], chain[i], step).unwrap()) by {
        lemma_one_step_more(f, chain, dependency_inputs, i, states[j], step);
    }
    lemma_over_states(f, states, chain[i], Seq::empty(), 0, known);
    if let Some(next) = crate::chains::advanced(f, states, chain[i]) {
        assert forall|j: int| 0 <= j < next.len() implies reachable(
            f,
            chain,
            dependency_inputs,
            i + 1,
            #[trigger] next[j],
        ) by {
            assert(known(next[j]));
        }
        assert forall|steps: Seq<ChainStep>| steps.len() == i + 1 implies ((
        #[trigger] reached(f, chain, dependency_inputs, steps)) matches Some(s) ==> covers(next, s)) by {
            if let Some(above) = reached(f, chain, dependency_inputs, steps) {
                let before = steps.drop_last();
                let step = steps.last();
                let upper = reached(f, chain, dependency_inputs, before).unwrap();
                assert(covers(states, upper));
                let j = choose|j: int|
                    0 <= j < states.len() && (#[trigger] states[j]).same_key(upper)
                        && states[j].total_ms.at_most(upper.total_ms);
                let lower = states[j];
                assert(reachable(f, chain, dependency_inputs, i, lower));
                let way = choose|way: Seq<ChainStep>|
                    way.len() == i && #[trigger] reached(f, chain, dependency_inputs, way) == Some(lower);
                lemma_reached_bytes(f, chain, dependency_inputs, way);
                lemma_reached_bytes(f, chain, dependency_inputs, before);
                if next_step(f, lower, chain[i], step) is Some {
                    lemma_one_step_more(f, chain, dependency_inputs, i, lower, step);
                    assert(known(next_step(f, lower, chain[i], step).unwrap()));
                }
                lemma_step_order(f, lower, upper, chain[i], step);
                let below = next_step(f, states[j], chain[i], step).unwrap();
                assert(covers(next, below));
                let w = choose|w: int|
                    0 <= w < next.len() && (#[trigger] next[w]).same_key(below)
                        && next[w].total_ms.at_most(below.total_ms);
                assert(next[w].same_key(above) && next[w].total_ms.at_most(above.total_ms));
            }
        }
    }
}

/// A step from a reachable state leads to one.
proof fn lemma_one_step_more(
    f: FusionModel,
    chain: Seq<LogicalRoleModel>,
    dependency_inputs: Seq<ObjectId>,
    i: int,
    state: SeparateChainState,
    step: ChainStep,
)
    requires
        1 <= i < chain.len(),
        reachable(f, chain, dependency_inputs, i, state),
        next_step(f, state, chain[i], step) is Some,
    ensures
        reachable(
            f,
            chain,
            dependency_inputs,
            i + 1,
            next_step(f, state, chain[i], step).unwrap(),
        ),
{
    let way = choose|way: Seq<ChainStep>|
        way.len() == i && #[trigger] reached(f, chain, dependency_inputs, way) == Some(state);
    let longer = way.push(step);
    assert(longer.drop_last() =~= way);
    assert(reached(f, chain, dependency_inputs, longer) == next_step(f, state, chain[i], step));
}

proof fn lemma_complete_through(
    f: FusionModel,
    chain: Seq<LogicalRoleModel>,
    dependency_inputs: Seq<ObjectId>,
    states: Seq<SeparateChainState>,
    i: int,
    n: int,
)
    requires
        1 <= i <= n <= chain.len(),
        countable(chain),
        every_total_is_a_number(f, chain, dependency_inputs),
        complete(f, chain, dependency_inputs, i, states),
    ensures
        crate::chains::through_chain(f, states, chain, i, n) matches Some(last) ==> complete(
            f,
            chain,
            dependency_inputs,
            n,
            last,
        ),
    decreases n - i,
{
    if i < n {
        lemma_complete_next(f, chain, dependency_inputs, i, states);
        if let Some(next) = crate::chains::advanced(f, states, chain[i]) {
            lemma_complete_through(f, chain, dependency_inputs, next, i + 1, n);
        }
    }
}

/// The cheapest of some states is one of them, and none costs less.
proof fn lemma_cheapest_state(
    states: Seq<SeparateChainState>,
    crossing: bool,
    i: int,
    best: Option<SeparateChainState>,
)
    requires
        0 <= i <= states.len(),
        forall|j: int| 0 <= j < states.len() ==> !(#[trigger] states[j]).total_ms.nan(),
        best matches Some(b) ==> !b.total_ms.nan() && (crossing ==> b.has_cross_resource_edge) && exists|
            j: int,
        |
            0 <= j < states.len() && #[trigger] states[j] == b,
    ensures
        ({
            let r = crate::chains::cheapest_state(states, crossing, i, best);
            &&& r matches Some(c) ==> (crossing ==> c.has_cross_resource_edge) && exists|j: int|
                0 <= j < states.len() && #[trigger] states[j] == c
            &&& best matches Some(b) ==> (r matches Some(c) && c.total_ms.at_most(b.total_ms))
            &&& forall|j: int|
                i <= j < states.len() && (crossing ==> (#[trigger] states[j]).has_cross_resource_edge)
                    ==> (r matches Some(c) && c.total_ms.at_most(states[j].total_ms))
        }),
    decreases states.len() - i,
{
    if i < states.len() {
        let next = if crossing && !states[i].has_cross_resource_edge {
            best
        } else {
            match best {
                Some(current) if current.total_ms.total_rank() <= states[i].total_ms.total_rank() => best,
                _ => Some(states[i]),
            }
        };
        lemma_cheapest_state(states, crossing, i + 1, next);
    }
}

/// The cheapest way to run the first `n` roles of a chain separately is found: it is a way to run
/// them, and no choice of implementations and resources takes less time. So is the cheapest of those
/// that cross resources, where there is one.
pub proof fn law_separate_paths_are_cheapest(
    f: FusionModel,
    chain: Seq<LogicalRoleModel>,
    dependency_inputs: Seq<ObjectId>,
    n: int,
    steps: Seq<ChainStep>,
)
    requires
        0 < n <= chain.len(),
        steps.len() == n,
        countable(chain),
        every_total_is_a_number(f, chain, dependency_inputs),
    ensures
        crate::chains::separate_paths(f, chain, n, dependency_inputs) matches Some(paths) ==> {
            &&& exists|way: Seq<ChainStep>|
                way.len() == n && #[trigger] reached(f, chain, dependency_inputs, way) == Some(paths.best)
            &&& paths.best_cross_resource matches Some(crossing) ==> crossing.has_cross_resource_edge && exists|
                way: Seq<ChainStep>,
            |
                way.len() == n && #[trigger] reached(f, chain, dependency_inputs, way) == Some(crossing)
            &&& reached(f, chain, dependency_inputs, steps) matches Some(s) ==> {
                &&& paths.best.total_ms.at_most(s.total_ms)
                &&& s.has_cross_resource_edge ==> (paths.best_cross_resource matches Some(crossing)
                    && crossing.total_ms.at_most(s.total_ms))
            }
        },
{
    if let Some(paths) = crate::chains::separate_paths(f, chain, n, dependency_inputs) {
        let first = crate::chains::first_states(f, chain[0], dependency_inputs, Seq::empty(), 0);
        lemma_complete_first(f, chain, dependency_inputs);
        lemma_complete_through(f, chain, dependency_inputs, first, 1, n);
        let states = crate::chains::through_chain(f, first, chain, 1, n).unwrap();
        assert forall|j: int| 0 <= j < states.len() implies !(#[trigger] states[j]).total_ms.nan() by {
            assert(reachable(f, chain, dependency_inputs, n, states[j]));
            let way = choose|way: Seq<ChainStep>|
                way.len() == n && #[trigger] reached(f, chain, dependency_inputs, way) == Some(states[j]);
            assert(reached(f, chain, dependency_inputs, way) == Some(states[j]));
        }
        lemma_cheapest_state(states, false, 0, None);
        lemma_cheapest_state(states, true, 0, None);
        let at = choose|j: int| 0 <= j < states.len() && #[trigger] states[j] == paths.best;
        assert(reachable(f, chain, dependency_inputs, n, states[at]));
        if let Some(crossing) = paths.best_cross_resource {
            let at = choose|j: int| 0 <= j < states.len() && #[trigger] states[j] == crossing;
            assert(reachable(f, chain, dependency_inputs, n, states[at]));
        }
        if let Some(s) = reached(f, chain, dependency_inputs, steps) {
            assert(covers(states, s));
            let j = choose|j: int|
                0 <= j < states.len() && (#[trigger] states[j]).same_key(s) && states[j].total_ms.at_most(
                    s.total_ms,
                );
            assert(paths.best.total_ms.at_most(states[j].total_ms));
        }
    }
}

/// One way is as good as another: it takes no longer, and where it takes as long, no less of that is
/// spent between resources.
pub open spec fn as_good(a: SeparateChainState, b: SeparateChainState) -> bool {
    &&& !b.total_ms.less(a.total_ms)
    &&& !a.total_ms.less(b.total_ms) ==> !a.cross_transfer_ms.less(b.cross_transfer_ms)
}

/// Of two ways that end alike the better one is kept: after one more is considered there is one that
/// ends like it and is as good, and what was kept before is kept or gives way to a better one.
pub proof fn law_of_ways_that_end_alike_the_better_is_kept(
    states: Seq<SeparateChainState>,
    candidate: SeparateChainState,
    i: int,
)
    requires
        !candidate.total_ms.nan(),
        !candidate.cross_transfer_ms.nan(),
        0 <= i < states.len(),
        forall|j: int|
            0 <= j < states.len() ==> !(#[trigger] states[j]).total_ms.nan()
                && !states[j].cross_transfer_ms.nan(),
    ensures
        ({
            let kept = crate::chains::inserted(states, candidate);
            &&& states.len() <= kept.len() <= states.len() + 1
            &&& kept[i] == states[i] || (kept[i] == candidate && candidate.same_key(states[i]) && as_good(
                candidate,
                states[i],
            ))
            &&& exists|j: int|
                0 <= j < kept.len() && (#[trigger] kept[j]).same_key(candidate) && as_good(kept[j], candidate)
        }),
{
    lemma_key_position(states, candidate, 0);
    let p = crate::chains::key_position(states, candidate, 0);
    let kept = crate::chains::inserted(states, candidate);
    if p < states.len() {
        assert(kept[p].same_key(candidate) && as_good(kept[p], candidate));
    } else {
        assert(kept[states.len() as int].same_key(candidate) && as_good(kept[states.len() as int], candidate));
    }
}

/// What running more roles of a chain in a given way comes to, from what the roles before a given one
/// came to.
pub open spec fn continued(
    f: FusionModel,
    chain: Seq<LogicalRoleModel>,
    from: int,
    seed: SeparateChainState,
    steps: Seq<ChainStep>,
) -> Option<SeparateChainState>
    decreases steps.len(),
{
    if steps.len() == 0 {
        Some(seed)
    } else {
        match continued(f, chain, from, seed, steps.drop_last()) {
            None => None,
            Some(previous) => next_step(f, previous, chain[from + steps.len() - 1], steps.last()),
        }
    }
}

/// However the rest of a chain is run, what it takes is a number.
pub open spec fn every_rest_is_a_number(
    f: FusionModel,
    chain: Seq<LogicalRoleModel>,
    from: int,
    seed: SeparateChainState,
) -> bool {
    forall|steps: Seq<ChainStep>|
        from + steps.len() <= chain.len() ==> ((#[trigger] continued(f, chain, from, seed, steps)) matches Some(s)
            ==> !s.total_ms.nan())
}

/// A state that some way of running the next `n` roles leads to.
spec fn attainable(
    f: FusionModel,
    chain: Seq<LogicalRoleModel>,
    from: int,
    seed: SeparateChainState,
    n: int,
    state: SeparateChainState,
) -> bool {
    exists|steps: Seq<ChainStep>|
        steps.len() == n && #[trigger] continued(f, chain, from, seed, steps) == Some(state)
}

/// Some states are attainable, and every way of running the next `n` roles is covered by one.
spec fn exhausts(
    f: FusionModel,
    chain: Seq<LogicalRoleModel>,
    from: int,
    seed: SeparateChainState,
    n: int,
    states: Seq<SeparateChainState>,
) -> bool {
    &&& forall|j: int|
        0 <= j < states.len() ==> attainable(f, chain, from, seed, n, #[trigger] states[j])
    &&& forall|steps: Seq<ChainStep>|
        steps.len() == n ==> ((#[trigger] continued(f, chain, from, seed, steps)) matches Some(s) ==> covers(
            states,
            s,
        ))
}

proof fn lemma_continued_bytes(
    f: FusionModel,
    chain: Seq<LogicalRoleModel>,
    from: int,
    seed: SeparateChainState,
    steps: Seq<ChainStep>,
)
    requires
        0 <= from,
        0 < steps.len() <= chain.len() - from,
        countable(chain),
    ensures
        continued(f, chain, from, seed, steps) matches Some(s) ==> s.output_bytes == chain[from + steps.len()
            - 1].implementations[s.implementation_index as int].task.cost.output_bytes,
{
    assert(chain[from + steps.len() - 1].implementations.len() <= usize::MAX);
}

proof fn lemma_one_role_more(
    f: FusionModel,
    chain: Seq<LogicalRoleModel>,
    from: int,
    seed: SeparateChainState,
    i: int,
    state: SeparateChainState,
    step: ChainStep,
)
    requires
        0 <= from,
        0 <= i < chain.len() - from,
        attainable(f, chain, from, seed, i, state),
        next_step(f, state, chain[from + i], step) is Some,
    ensures
        attainable(
            f,
            chain,
            from,
            seed,
            i + 1,
            next_step(f, state, chain[from + i], step).unwrap(),
        ),
{
    let way = choose|way: Seq<ChainStep>|
        way.len() == i && #[trigger] continued(f, chain, from, seed, way) == Some(state);
    let longer = way.push(step);
    assert(longer.drop_last() =~= way);
    assert(continued(f, chain, from, seed, longer) == next_step(f, state, chain[from + i], step));
}

proof fn lemma_same_bytes(
    f: FusionModel,
    chain: Seq<LogicalRoleModel>,
    from: int,
    seed: SeparateChainState,
    i: int,
    lower: SeparateChainState,
    upper: SeparateChainState,
)
    requires
        0 <= from,
        0 <= i < chain.len() - from,
        countable(chain),
        attainable(f, chain, from, seed, i, lower),
        attainable(f, chain, from, seed, i, upper),
        lower.same_key(upper),
    ensures
        lower.output_bytes == upper.output_bytes,
{
    let a = choose|way: Seq<ChainStep>|
        way.len() == i && #[trigger] continued(f, chain, from, seed, way) == Some(lower);
    let b = choose|way: Seq<ChainStep>|
        way.len() == i && #[trigger] continued(f, chain, from, seed, way) == Some(upper);
    if i > 0 {
        lemma_continued_bytes(f, chain, from, seed, a);
        lemma_continued_bytes(f, chain, from, seed, b);
    } else {
        assert(lower == seed && upper == seed);
    }
}

/// A way of running one more role is covered where what follows from some states is.
proof fn lemma_way_is_covered(
    f: FusionModel,
    chain: Seq<LogicalRoleModel>,
    from: int,
    seed: SeparateChainState,
    i: int,
    states: Seq<SeparateChainState>,
    next: Seq<SeparateChainState>,
    steps: Seq<ChainStep>,
)
    requires
        0 <= from,
        0 <= i < chain.len() - from,
        countable(chain),
        every_rest_is_a_number(f, chain, from, seed),
        exhausts(f, chain, from, seed, i, states),
        steps.len() == i + 1,
        continued(f, chain, from, seed, steps) is Some,
        forall|j: int, step: ChainStep|
            0 <= j < states.len() ==> ((#[trigger] next_step(f, states[j], chain[from + i], step)) matches Some(
                s,
            ) ==> covers(next, s)),
    ensures
        covers(next, continued(f, chain, from, seed, steps).unwrap()),
{
    let role = chain[from + i];
    let above = continued(f, chain, from, seed, steps).unwrap();
    let before = steps.drop_last();
    let step = steps.last();
    let upper = continued(f, chain, from, seed, before).unwrap();
    assert(next_step(f, upper, role, step) == Some(above));
    assert(covers(states, upper));
    let j = choose|j: int|
        0 <= j < states.len() && (#[trigger] states[j]).same_key(upper) && states[j].total_ms.at_most(
            upper.total_ms,
        );
    let lower = states[j];
    assert(attainable(f, chain, from, seed, i, lower));
    assert(attainable(f, chain, from, seed, i, upper));
    lemma_same_bytes(f, chain, from, seed, i, lower, upper);
    if next_step(f, lower, role, step) is Some {
        lemma_one_role_more(f, chain, from, seed, i, lower, step);
        let below = next_step(f, lower, role, step).unwrap();
        let way = choose|way: Seq<ChainStep>|
            way.len() == i + 1 && #[trigger] continued(f, chain, from, seed, way) == Some(below);
        assert(continued(f, chain, from, seed, way) == Some(below));
    }
    lemma_step_order(f, lower, upper, role, step);
    let below = next_step(f, states[j], role, step).unwrap();
    assert(covers(next, below));
    let w = choose|w: int|
        0 <= w < next.len() && (#[trigger] next[w]).same_key(below) && next[w].total_ms.at_most(below.total_ms);
    assert(next[w].same_key(above) && next[w].total_ms.at_most(above.total_ms));
}

/// One more role keeps states exhaustive.
proof fn lemma_exhausts_next(
    f: FusionModel,
    chain: Seq<LogicalRoleModel>,
    from: int,
    seed: SeparateChainState,
    i: int,
    states: Seq<SeparateChainState>,
)
    requires
        0 <= from,
        0 <= i < chain.len() - from,
        countable(chain),
        every_rest_is_a_number(f, chain, from, seed),
        exhausts(f, chain, from, seed, i, states),
    ensures
        crate::chains::advanced(f, states, chain[from + i]) matches Some(next) ==> exhausts(
            f,
            chain,
            from,
            seed,
            i + 1,
            next,
        ),
{
    let role = chain[from + i];
    let known = |s: SeparateChainState| attainable(f, chain, from, seed, i + 1, s);
    assert forall|s: SeparateChainState| #[trigger] known(s) implies !s.total_ms.nan() by {
        let steps = choose|steps: Seq<ChainStep>|
            steps.len() == i + 1 && #[trigger] continued(f, chain, from, seed, steps) == Some(s);
        assert(continued(f, chain, from, seed, steps) == Some(s));
    }
    assert forall|j: int, step: ChainStep| 0 <= j < states.len() && (#[trigger] next_step(
        f,
        states[j],
        role,
        step,
    )) is Some implies known(next_step(f, states[j], role, step).unwrap()) by {
        lemma_one_role_more(f, chain, from, seed, i, states[j], step);
    }
    lemma_over_states(f, states, role, Seq::empty(), 0, known);
    if let Some(next) = crate::chains::advanced(f, states, role) {
        assert forall|j: int| 0 <= j < next.len() implies attainable(
            f,
            chain,
            from,
            seed,
            i + 1,
            #[trigger] next[j],
        ) by {
            assert(known(next[j]));
        }
        assert forall|steps: Seq<ChainStep>| steps.len() == i + 1 implies ((
        #[trigger] continued(f, chain, from, seed, steps)) matches Some(s) ==> covers(next, s)) by {
            if continued(f, chain, from, seed, steps) is Some {
                lemma_way_is_covered(f, chain, from, seed, i, states, next, steps);
            }
        }
    }
}

proof fn lemma_exhausts_through(
    f: FusionModel,
    chain: Seq<LogicalRoleModel>,
    from: int,
    seed: SeparateChainState,
    states: Seq<SeparateChainState>,
    i: int,
)
    requires
        0 <= from,
        0 <= i <= chain.len() - from,
        countable(chain),
        every_rest_is_a_number(f, chain, from, seed),
        exhausts(f, chain, from, seed, i, states),
    ensures
        crate::chains::through_chain(f, states, chain, from + i, chain.len() as int) matches Some(last)
            ==> exhausts(f, chain, from, seed, chain.len() - from, last),
    decreases chain.len() - from - i,
{
    if i < chain.len() - from {
        lemma_exhausts_next(f, chain, from, seed, i, states);
        if let Some(next) = crate::chains::advanced(f, states, chain[from + i]) {
            lemma_exhausts_through(f, chain, from, seed, next, i + 1);
        }
    }
}

/// What the first roles of a chain came to when they were run as one task.
pub open spec fn left_by(resource_id: ResourceId, output_bytes: u64, total_ms: Binary64) -> SeparateChainState {
    SeparateChainState {
        implementation_index: usize::MAX,
        resource_id,
        output_bytes,
        total_ms,
        cross_transfer_ms: Binary64 { bits: 0 },
        has_cross_resource_edge: false,
        has_fusion_trigger_edge: false,
    }
}

/// The time to run the rest of a chain is that of a way to run it, and no choice of implementations and
/// resources takes less.
pub proof fn law_the_rest_is_run_the_cheapest_way(
    f: FusionModel,
    chain: Seq<LogicalRoleModel>,
    from: int,
    output_bytes: u64,
    resource_id: ResourceId,
    total_ms: Binary64,
    steps: Seq<ChainStep>,
)
    requires
        0 <= from,
        steps.len() == chain.len() - from,
        countable(chain),
        every_rest_is_a_number(f, chain, from, left_by(resource_id, output_bytes, total_ms)),
    ensures
        crate::chains::tail_total(f, chain, from, output_bytes, resource_id, total_ms) matches Some(total) ==> {
            let seed = left_by(resource_id, output_bytes, total_ms);
            &&& exists|way: Seq<ChainStep>|
                way.len() == steps.len() && ((#[trigger] continued(f, chain, from, seed, way)) matches Some(s)
                    && s.total_ms == total)
            &&& continued(f, chain, from, seed, steps) matches Some(s) ==> total.at_most(s.total_ms)
        },
{
    let seed = left_by(resource_id, output_bytes, total_ms);
    let first = seq![seed];
    assert(exhausts(f, chain, from, seed, 0, first)) by {
        assert forall|j: int| 0 <= j < first.len() implies attainable(f, chain, from, seed, 0, #[trigger] first[j]) by {
            assert(continued(f, chain, from, seed, Seq::empty()) == Some(first[j]));
        }
        assert forall|way: Seq<ChainStep>| way.len() == 0 implies ((
        #[trigger] continued(f, chain, from, seed, way)) matches Some(s) ==> covers(first, s)) by {
            assert(!seed.total_ms.nan()) by {
                assert(continued(f, chain, from, seed, Seq::empty()) == Some(seed));
            }
            assert(first[0].same_key(seed) && first[0].total_ms.at_most(seed.total_ms));
        }
    }
    lemma_exhausts_through(f, chain, from, seed, first, 0);
    if let Some(states) = crate::chains::through_chain(f, first, chain, from, chain.len() as int) {
        assert forall|j: int| 0 <= j < states.len() implies !(#[trigger] states[j]).total_ms.nan() by {
            assert(attainable(f, chain, from, seed, steps.len() as int, states[j]));
            let way = choose|way: Seq<ChainStep>|
                way.len() == steps.len() && #[trigger] continued(f, chain, from, seed, way) == Some(states[j]);
            assert(continued(f, chain, from, seed, way) == Some(states[j]));
        }
        lemma_cheapest_state(states, false, 0, None);
        if let Some(best) = crate::chains::cheapest_state(states, false, 0, None) {
            let at = choose|j: int| 0 <= j < states.len() && #[trigger] states[j] == best;
            assert(attainable(f, chain, from, seed, steps.len() as int, states[at]));
            let way = choose|way: Seq<ChainStep>|
                way.len() == steps.len() && #[trigger] continued(f, chain, from, seed, way) == Some(best);
            assert(continued(f, chain, from, seed, way) == Some(best));
            if let Some(s) = continued(f, chain, from, seed, steps) {
                assert(covers(states, s));
                let w = choose|w: int|
                    0 <= w < states.len() && (#[trigger] states[w]).same_key(s) && states[w].total_ms.at_most(
                        s.total_ms,
                    );
                assert(best.total_ms.at_most(states[w].total_ms));
            }
        }
    }
}

/// A way to fuse the first roles of a chain comes into question just where the task can be placed and
/// the chain can be run on from there in no more time than separately; what it saves is the difference,
/// counted to the end of the chain.
pub proof fn law_fusions_are_judged_to_the_end_of_the_chain(
    f: FusionModel,
    chain: Seq<LogicalRoleModel>,
    n: int,
    dependency_inputs: Seq<ObjectId>,
    choice: FusedChoiceModel,
    separate_ms: Binary64,
    avoided_ms: Binary64,
    decision: PlacementDecision,
)
    requires
        0 < n <= chain.len(),
        choice.tasks.len() > 0,
        separate_ms.finite(),
        crate::scheduler::chosen(
            f.context.risk_multiplier,
            crate::fusion::fused_task(
                choice.tasks,
                dependency_inputs,
                choice.requirements,
                crate::shards::anonymous(),
            ),
            f.context.resources,
            f.context.objects,
            f.context.links,
        ) == Ok::<PlacementDecision, ScheduleError>(decision),
    ensures
        ({
            let candidate = crate::chains::fusion_candidate(
                f,
                chain,
                n,
                dependency_inputs,
                choice,
                separate_ms,
                avoided_ms,
            );
            let rest = crate::chains::tail_total(
                f,
                chain,
                n,
                choice.tasks[choice.tasks.len() - 1].cost.output_bytes,
                decision.resource_id,
                decision.cost.total_ms,
            );
            let total = if n == chain.len() {
                Some(decision.cost.total_ms)
            } else {
                rest
            };
            &&& total is None ==> candidate is None
            &&& total matches Some(t) ==> (t.finite() ==> (candidate is Some <==> !separate_ms.less(t)))
            &&& candidate matches Some(c) ==> {
                &&& c.estimated_vs_separate_ms == separate_ms.difference(total.unwrap())
                &&& c.estimated_avoided_transfer_ms == avoided_ms
                &&& c.implementations == choice.names
                &&& c.resource_id == decision.resource_id
                &&& c.cost == decision.cost
            }
        }),
{
    let total = if n == chain.len() {
        Some(decision.cost.total_ms)
    } else {
        crate::chains::tail_total(
            f,
            chain,
            n,
            choice.tasks.last().cost.output_bytes,
            decision.resource_id,
            decision.cost.total_ms,
        )
    };
    if let Some(t) = total {
        if t.finite() {
            crate::binary64_laws::law_differences_tell_the_order(separate_ms, t);
        }
    }
}

}
