//! What holds of the choice of a shard count: more shards have to pay.

use vstd::prelude::*;

use crate::binary64::Binary64;
use crate::ids::ObjectId;
use crate::jobs::{AutoShardModel, LogicalRoleModel};
use crate::shards::{ContextModel, ShardPlanModel};

verus! {

/// The plan with a given number of shards.
pub open spec fn plan_with(
    context: ContextModel,
    role: LogicalRoleModel,
    dependency_inputs: Seq<ObjectId>,
    policy: AutoShardModel,
    ready_ms: Binary64,
    availability: Map<u128, Binary64>,
    count: nat,
) -> Option<ShardPlanModel> {
    crate::shards::chosen_shards(
        context,
        role,
        dependency_inputs,
        count as u32,
        Some(policy),
        ready_ms,
        availability,
        count,
    )
}

/// The time that a role adds is a number, and not negative.
proof fn lemma_added_time(plan: ShardPlanModel, ready_ms: Binary64)
    ensures
        !crate::shards::added_time(plan.choices, ready_ms).nan(),
        crate::shards::added_time(plan.choices, ready_ms).rank() >= 0,
{
}

/// A plan of an earlier count that was not worth it takes longer than one of a later count that is.
proof fn lemma_worth_it_is_shorter(
    current_ms: Binary64,
    current_count: nat,
    refused_ms: Binary64,
    refused_count: nat,
    taken_ms: Binary64,
    taken_count: nat,
    min_gain_ratio: Binary64,
)
    requires
        !current_ms.nan(),
        !refused_ms.nan(),
        !taken_ms.nan(),
        refused_ms.rank() >= 0,
        taken_ms.rank() >= 0,
        current_count < taken_count,
        !crate::shards::worth_it(
            refused_ms,
            refused_count,
            current_ms,
            current_count,
            min_gain_ratio,
        ),
        crate::shards::worth_it(taken_ms, taken_count, current_ms, current_count, min_gain_ratio),
    ensures
        taken_ms.total_rank() < refused_ms.total_rank(),
{
    if refused_ms.total_rank() <= taken_ms.total_rank() {
        assert(refused_ms.at_most(taken_ms));
        if !current_ms.at_most(Binary64 { bits: 0 }) {
            let gain = current_ms.difference(taken_ms).quotient(current_ms);
            if current_ms.infinite() {
                reveal(Binary64::sum);
                reveal(Binary64::quotient);
                assert(current_ms.difference(taken_ms).infinite() || current_ms.difference(
                    taken_ms,
                ).nan());
                assert(gain.nan());
            } else {
                let less = taken_ms.negated();
                let more = refused_ms.negated();
                assert(less.at_most(more));
                assert(!less.sum(current_ms).nan() && !more.sum(current_ms).nan()) by {
                    crate::binary64_laws::lemma_finite_sum(less, current_ms);
                    crate::binary64_laws::lemma_finite_sum(more, current_ms);
                }
                crate::binary64_laws::law_sums_are_monotone(less, more, current_ms);
                crate::binary64_laws::law_sums_commute(less, current_ms);
                crate::binary64_laws::law_sums_commute(more, current_ms);
                crate::binary64_laws::law_quotients_are_monotone(
                    current_ms.difference(taken_ms),
                    current_ms.difference(refused_ms),
                    current_ms,
                );
            }
        }
    }
}

/// The plan of the best count among the first `c` is the plan of one of them. Every plan with fewer
/// shards takes longer, and no plan with more is worth it.
pub proof fn law_more_shards_must_pay(
    context: ContextModel,
    role: LogicalRoleModel,
    dependency_inputs: Seq<ObjectId>,
    policy: AutoShardModel,
    ready_ms: Binary64,
    availability: Map<u128, Binary64>,
    c: nat,
)
    requires
        c <= u32::MAX,
    ensures
        crate::shards::best_count(
            context,
            role,
            dependency_inputs,
            policy,
            ready_ms,
            availability,
            c,
        ) matches Some(best) ==> {
            let n = best.choices.len();
            let best_ms = crate::shards::added_time(best.choices, ready_ms);
            &&& 0 < n <= c
            &&& plan_with(context, role, dependency_inputs, policy, ready_ms, availability, n) == Some(
                best,
            )
            &&& forall|m: nat|
                0 < m <= c ==> ((#[trigger] plan_with(
                    context,
                    role,
                    dependency_inputs,
                    policy,
                    ready_ms,
                    availability,
                    m,
                )) matches Some(other) ==> {
                    let other_ms = crate::shards::added_time(other.choices, ready_ms);
                    &&& m < n ==> best_ms.total_rank() < other_ms.total_rank()
                    &&& m > n ==> !crate::shards::worth_it(
                        other_ms,
                        m,
                        best_ms,
                        n,
                        policy.min_gain_ratio,
                    )
                })
        },
    decreases c,
{
    if c > 0 {
        let below = (c - 1) as nat;
        law_more_shards_must_pay(
            context,
            role,
            dependency_inputs,
            policy,
            ready_ms,
            availability,
            below,
        );
        lemma_plans_have_their_count(
            context,
            role,
            dependency_inputs,
            policy,
            ready_ms,
            availability,
            c,
        );
        let before = crate::shards::best_count(
            context,
            role,
            dependency_inputs,
            policy,
            ready_ms,
            availability,
            below,
        );
        let candidate = plan_with(
            context,
            role,
            dependency_inputs,
            policy,
            ready_ms,
            availability,
            c,
        );
        if before is None {
            lemma_no_plan_below(
                context,
                role,
                dependency_inputs,
                policy,
                ready_ms,
                availability,
                below,
            );
        }
        if let (Some(current), Some(taken)) = (before, candidate) {
            let current_ms = crate::shards::added_time(current.choices, ready_ms);
            let taken_ms = crate::shards::added_time(taken.choices, ready_ms);
            if crate::shards::worth_it(
                taken_ms,
                c,
                current_ms,
                current.choices.len(),
                policy.min_gain_ratio,
            ) {
                assert forall|m: nat| 0 < m < c implies ((#[trigger] plan_with(
                    context,
                    role,
                    dependency_inputs,
                    policy,
                    ready_ms,
                    availability,
                    m,
                )) matches Some(other) ==> taken_ms.total_rank() < crate::shards::added_time(
                    other.choices,
                    ready_ms,
                ).total_rank()) by {
                    if let Some(other) = plan_with(
                        context,
                        role,
                        dependency_inputs,
                        policy,
                        ready_ms,
                        availability,
                        m,
                    ) {
                        let other_ms = crate::shards::added_time(other.choices, ready_ms);
                        lemma_added_time(current, ready_ms);
                        lemma_added_time(other, ready_ms);
                        lemma_added_time(taken, ready_ms);
                        if m > current.choices.len() {
                            lemma_worth_it_is_shorter(
                                current_ms,
                                current.choices.len(),
                                other_ms,
                                m,
                                taken_ms,
                                c,
                                policy.min_gain_ratio,
                            );
                        } else if m == current.choices.len() {
                            assert(other == current);
                        }
                    }
                }
            }
        }
    }
}

proof fn lemma_plans_have_their_count(
    context: ContextModel,
    role: LogicalRoleModel,
    dependency_inputs: Seq<ObjectId>,
    policy: AutoShardModel,
    ready_ms: Binary64,
    availability: Map<u128, Binary64>,
    count: nat,
)
    requires
        count <= u32::MAX,
    ensures
        plan_with(context, role, dependency_inputs, policy, ready_ms, availability, count) matches Some(
            plan,
        ) ==> plan.choices.len() == count,
{
    crate::shards::law_shards_are_numbered_in_order(
        context,
        role,
        dependency_inputs,
        count as u32,
        Some(policy),
        ready_ms,
        availability,
        count,
    );
}

proof fn lemma_no_plan_below(
    context: ContextModel,
    role: LogicalRoleModel,
    dependency_inputs: Seq<ObjectId>,
    policy: AutoShardModel,
    ready_ms: Binary64,
    availability: Map<u128, Binary64>,
    c: nat,
)
    requires
        crate::shards::best_count(
            context,
            role,
            dependency_inputs,
            policy,
            ready_ms,
            availability,
            c,
        ) is None,
    ensures
        forall|m: nat|
            0 < m <= c ==> (#[trigger] plan_with(
                context,
                role,
                dependency_inputs,
                policy,
                ready_ms,
                availability,
                m,
            )) is None,
    decreases c,
{
    if c > 0 {
        lemma_no_plan_below(
            context,
            role,
            dependency_inputs,
            policy,
            ready_ms,
            availability,
            (c - 1) as nat,
        );
        assert forall|m: nat| 0 < m <= c implies (#[trigger] plan_with(
            context,
            role,
            dependency_inputs,
            policy,
            ready_ms,
            availability,
            m,
        )) is None by {}
    }
}

}
