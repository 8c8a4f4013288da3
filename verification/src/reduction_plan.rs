//! Predicted reduction trees: which reducers a plan counts on, where and when.

use std::collections::BTreeMap;
use vstd::prelude::*;

use crate::binary64::Binary64;
use crate::chains::{placeholder_id, predict_object};
use crate::ids::ObjectId;
use crate::jobs::{ReductionModel, RoleReductionSpec};
use crate::objects::{ObjectMetadata, ObjectModel};
use crate::planner::{placement_of, PlannedPlacement};
use crate::reduction::group_objects;
use crate::resources::ResourceDescriptor;
use crate::scheduler::TopologyAwareScheduler;
use crate::shards::{consider_task, ContextModel, ShardPlanningContext};
use crate::tasks::{extend_objects, TaskModel};
use crate::topology::TopologySnapshot;

verus! {

broadcast use vstd::std_specs::btree::group_btree_axioms;

/// A predicted reducer.
#[derive(Debug, PartialEq)]
pub struct PlannedReduction {
    pub level: usize,
    /// The place of its group in the level.
    pub group: usize,
    pub implementation: String,
    /// How many objects it takes.
    pub inputs: usize,
    pub placement: PlannedPlacement,
}

pub struct PlannedReductionModel {
    pub level: nat,
    pub group: nat,
    pub implementation: Seq<char>,
    pub inputs: nat,
    pub placement: PlannedPlacement,
}

impl View for PlannedReduction {
    type V = PlannedReductionModel;

    open spec fn view(&self) -> PlannedReductionModel {
        PlannedReductionModel {
            level: self.level as nat,
            group: self.group as nat,
            implementation: self.implementation@,
            inputs: self.inputs as nat,
            placement: self.placement,
        }
    }
}

impl Clone for PlannedReduction {
    fn clone(&self) -> (r: PlannedReduction)
        ensures
            r@ == self@,
    {
        PlannedReduction {
            level: self.level,
            group: self.group,
            implementation: self.implementation.clone(),
            inputs: self.inputs,
            placement: self.placement,
        }
    }
}

/// What is predicted while the reducers of a role are being planned: the known objects, when
/// resources are free, the objects that are left, when those that shards and reducers put out are
/// there, and the reducers.
pub struct ReductionTree {
    pub objects: BTreeMap<u128, ObjectMetadata>,
    pub availability: BTreeMap<u128, Binary64>,
    pub left: Vec<ObjectId>,
    pub ready: BTreeMap<u128, Binary64>,
    pub reductions: Vec<PlannedReduction>,
}

#[verifier::ext_equal]
pub struct TreeModel {
    pub objects: Map<u128, ObjectModel>,
    pub availability: Map<u128, Binary64>,
    pub left: Seq<ObjectId>,
    pub ready: Map<u128, Binary64>,
    pub reductions: Seq<PlannedReductionModel>,
}

impl View for ReductionTree {
    type V = TreeModel;

    open spec fn view(&self) -> TreeModel {
        TreeModel {
            objects: crate::collections::modeled(self.objects@),
            availability: self.availability@,
            left: self.left@,
            ready: self.ready@,
            reductions: crate::text::views(self.reductions@),
        }
    }
}

/// When the first `k` of some objects are all there, which is not before `start_ms`.
pub open spec fn inputs_ready(
    ready: Map<u128, Binary64>,
    ids: Seq<ObjectId>,
    start_ms: Binary64,
    k: nat,
) -> Binary64
    decreases k,
{
    if k == 0 {
        start_ms
    } else {
        let before = inputs_ready(ready, ids, start_ms, (k - 1) as nat);
        if ready.contains_key(ids[k - 1].0) {
            before.maximum(ready[ids[k - 1].0])
        } else {
            before
        }
    }
}

/// One more group: its reducer runs where it is predicted to finish first. An object that stands alone
/// is carried on. `None` where nothing can run the reducer.
pub open spec fn reduced_group(
    context: ContextModel,
    mentioned: Seq<u128>,
    reduction: ReductionModel,
    start_ms: Binary64,
    group: Seq<ObjectId>,
    level: nat,
    index: nat,
    tree: TreeModel,
) -> Option<TreeModel> {
    if group.len() <= 1 {
        Some(TreeModel { left: tree.left + group, ..tree })
    } else {
        let task = reduction.task.instantiated(group, crate::shards::anonymous());
        match crate::shards::best_resource(
            ContextModel { objects: tree.objects, ..context },
            0,
            reduction.name,
            task,
            inputs_ready(tree.ready, group, start_ms, group.len()),
            tree.availability,
            None,
            context.resources.len(),
        ) {
            None => None,
            Some(choice) => {
                let id = crate::chains::placeholder(tree.objects, mentioned);
                Some(
                    TreeModel {
                        objects: tree.objects.insert(
                            id.0,
                            crate::chains::predicted_object(
                                id,
                                task.cost.output_bytes,
                                choice.resource_id,
                            ),
                        ),
                        availability: tree.availability.insert(
                            choice.resource_id.0,
                            choice.finish(),
                        ),
                        left: tree.left.push(id),
                        ready: tree.ready.insert(id.0, choice.finish()),
                        reductions: tree.reductions.push(
                            PlannedReductionModel {
                                level,
                                group: index,
                                implementation: reduction.name,
                                inputs: group.len(),
                                placement: crate::planner::planned_placement(choice),
                            },
                        ),
                    },
                )
            },
        }
    }
}

/// The groups of a level from `k` on, one after the other.
pub open spec fn reduced_level(
    context: ContextModel,
    mentioned: Seq<u128>,
    reduction: ReductionModel,
    start_ms: Binary64,
    groups: Seq<Seq<ObjectId>>,
    level: nat,
    tree: TreeModel,
    k: nat,
) -> Option<TreeModel>
    decreases groups.len() - k,
{
    if k >= groups.len() {
        Some(tree)
    } else {
        match reduced_group(
            context,
            mentioned,
            reduction,
            start_ms,
            groups[k as int],
            level,
            k,
            tree,
        ) {
            None => None,
            Some(next) => reduced_level(
                context,
                mentioned,
                reduction,
                start_ms,
                groups,
                level,
                next,
                k + 1,
            ),
        }
    }
}

/// The levels from a given one on, in at most `steps` steps, until one object is left.
pub open spec fn reduced(
    context: ContextModel,
    mentioned: Seq<u128>,
    reduction: ReductionModel,
    start_ms: Binary64,
    level: nat,
    tree: TreeModel,
    steps: nat,
) -> Option<TreeModel>
    decreases steps,
{
    if tree.left.len() <= 1 || steps == 0 || reduction.max_fan_in == 0 {
        Some(tree)
    } else {
        match reduced_level(
            context,
            mentioned,
            reduction,
            start_ms,
            crate::reduction::level_groups(context.links, reduction, tree.objects, tree.left),
            level,
            TreeModel { left: Seq::empty(), ..tree },
            0,
        ) {
            None => None,
            Some(next) => reduced(
                context,
                mentioned,
                reduction,
                start_ms,
                level + 1,
                next,
                (steps - 1) as nat,
            ),
        }
    }
}

/// When the first `k` reducers are done, which is not before `start_ms`.
pub open spec fn latest_reduction(
    reductions: Seq<PlannedReductionModel>,
    start_ms: Binary64,
    k: nat,
) -> Binary64
    decreases k,
{
    if k == 0 {
        start_ms
    } else {
        latest_reduction(reductions, start_ms, (k - 1) as nat).maximum(
            reductions[k - 1].placement.finish_ms,
        )
    }
}

fn gather_ready(ready: &BTreeMap<u128, Binary64>, ids: &Vec<ObjectId>, start_ms: Binary64) -> (r: Binary64)
    ensures
        r == inputs_ready(ready@, ids@, start_ms, ids@.len()),
{
    let mut time = start_ms;
    let mut k: usize = 0;
    while k < ids.len()
        invariant
            k <= ids@.len(),
            time == inputs_ready(ready@, ids@, start_ms, k as nat),
        decreases ids@.len() - k,
    {
        if let Some(there) = ready.get(&ids[k].0) {
            time = time.max(*there);
        }
        k = k + 1;
    }
    time
}

/// What reducers are planned on.
pub struct ReductionContext<'a> {
    pub scheduler: &'a TopologyAwareScheduler,
    pub resources: &'a Vec<ResourceDescriptor>,
    pub topology: &'a TopologySnapshot,
    /// Identities that no predicted object may have.
    pub mentioned: &'a Vec<u128>,
}

impl<'a> ReductionContext<'a> {
    /// With no objects.
    pub open spec fn model(&self) -> ContextModel {
        ContextModel {
            risk_multiplier: self.scheduler.risk_multiplier,
            resources: crate::text::views(self.resources@),
            objects: Map::empty(),
            links: self.topology@,
        }
    }
}

/// Plans the reducer of one group; `None` where nothing can run it.
fn reduce_group(
    context: &ReductionContext,
    reduction: &RoleReductionSpec,
    start_ms: Binary64,
    group: &Vec<ObjectId>,
    level: usize,
    index: usize,
    tree: ReductionTree,
) -> (r: Option<ReductionTree>)
    ensures
        crate::text::view_of(r) == reduced_group(
            context.model(),
            context.mentioned@,
            reduction@,
            start_ms,
            group@,
            level as nat,
            index as nat,
            tree@,
        ),
{
    let mut tree = tree;
    let ghost model = tree@;
    if group.len() <= 1 {
        extend_objects(&mut tree.left, group);
        return Some(tree);
    }
    let task = reduction.task.instantiate(group);
    let ready_ms = gather_ready(&tree.ready, group, start_ms);
    let ghost anonymous = TaskModel { id: crate::shards::anonymous(), ..task@ };
    assert(anonymous == reduction@.task.instantiated(group@, crate::shards::anonymous()));
    let planning = ShardPlanningContext {
        scheduler: context.scheduler,
        resources: context.resources,
        objects: &tree.objects,
        topology: context.topology,
    };
    assert(planning@ == (ContextModel { objects: model.objects, ..context.model() }));
    let chosen = consider_task(
        &planning,
        0,
        &reduction.name,
        &task,
        ready_ms,
        &tree.availability,
        None,
        Ghost(None),
    );
    match chosen {
        None => None,
        Some(selection) => {
            let finish_ms = selection.finish_ms();
            let id = placeholder_id(&tree.objects, context.mentioned);
            tree.objects.insert(
                id.0,
                predict_object(id, task.cost.output_bytes, selection.resource_id),
            );
            tree.availability.insert(selection.resource_id.0, finish_ms);
            tree.left.push(id);
            tree.ready.insert(id.0, finish_ms);
            let ghost earlier = crate::text::views(tree.reductions@);
            tree.reductions.push(
                PlannedReduction {
                    level,
                    group: index,
                    implementation: reduction.name.clone(),
                    inputs: group.len(),
                    placement: placement_of(&selection),
                },
            );
            proof {
                let choice = crate::shards::best_resource(
                    planning@,
                    0,
                    reduction@.name,
                    anonymous,
                    ready_ms,
                    model.availability,
                    None,
                    planning@.resources.len(),
                ).unwrap();
                assert(selection@ == choice.named(selection.task.id));
                assert(tree@.objects =~= model.objects.insert(
                    id.0,
                    crate::chains::predicted_object(id, task@.cost.output_bytes, choice.resource_id),
                ));
                assert(tree@.reductions =~= earlier.push(
                    PlannedReductionModel {
                        level: level as nat,
                        group: index as nat,
                        implementation: reduction@.name,
                        inputs: group@.len(),
                        placement: crate::planner::planned_placement(choice),
                    },
                ));
            }
            Some(tree)
        },
    }
}

/// Plans the reducers of one level; `None` where nothing can run one of them.
fn reduce_level(
    context: &ReductionContext,
    reduction: &RoleReductionSpec,
    start_ms: Binary64,
    groups: &Vec<Vec<ObjectId>>,
    level: usize,
    tree: ReductionTree,
) -> (r: Option<ReductionTree>)
    ensures
        crate::text::view_of(r) == reduced_level(
            context.model(),
            context.mentioned@,
            reduction@,
            start_ms,
            crate::text::views(groups@),
            level as nat,
            tree@,
            0,
        ),
{
    let mut next = tree;
    let mut k: usize = 0;
    while k < groups.len()
        invariant
            k <= groups@.len(),
            reduced_level(
                context.model(),
                context.mentioned@,
                reduction@,
                start_ms,
                crate::text::views(groups@),
                level as nat,
                tree@,
                0,
            ) == reduced_level(
                context.model(),
                context.mentioned@,
                reduction@,
                start_ms,
                crate::text::views(groups@),
                level as nat,
                next@,
                k as nat,
            ),
        decreases groups@.len() - k,
    {
        assert(crate::text::views(groups@)[k as int] == groups@[k as int]@);
        next = match reduce_group(context, reduction, start_ms, &groups[k], level, k, next) {
            Some(next) => next,
            None => {
                return None;
            },
        };
        k = k + 1;
    }
    Some(next)
}

/// Plans the reducers that bring what is left together, level by level, until one object is left;
/// `None` where nothing can run one of them.
pub fn reduce_objects(
    context: &ReductionContext,
    reduction: &RoleReductionSpec,
    start_ms: Binary64,
    tree: ReductionTree,
) -> (r: Option<ReductionTree>)
    ensures
        crate::text::view_of(r) == reduced(
            context.model(),
            context.mentioned@,
            reduction@,
            start_ms,
            0,
            tree@,
            tree@.left.len(),
        ),
{
    let count: usize = tree.left.len();
    let mut next = tree;
    let mut level: usize = 0;
    while next.left.len() > 1 && level < count && reduction.max_fan_in > 0
        invariant
            level <= count,
            count == tree@.left.len(),
            reduced(
                context.model(),
                context.mentioned@,
                reduction@,
                start_ms,
                0,
                tree@,
                tree@.left.len(),
            ) == reduced(
                context.model(),
                context.mentioned@,
                reduction@,
                start_ms,
                level as nat,
                next@,
                (count - level) as nat,
            ),
        decreases count - level,
    {
        let groups = group_objects(&next.objects, context.topology, reduction, &next.left);
        let ghost before = next@;
        next.left = Vec::new();
        assert(next@ =~= (TreeModel { left: Seq::empty(), ..before }));
        next = match reduce_level(context, reduction, start_ms, &groups, level, next) {
            Some(next) => next,
            None => {
                return None;
            },
        };
        level = level + 1;
    }
    Some(next)
}

/// When some reducers are done, which is not before a given time.
pub(crate) fn latest_of(reductions: &Vec<PlannedReduction>, start_ms: Binary64) -> (r: Binary64)
    ensures
        r == latest_reduction(crate::text::views(reductions@), start_ms, reductions@.len()),
{
    let ghost model = crate::text::views(reductions@);
    let mut time = start_ms;
    let mut k: usize = 0;
    while k < reductions.len()
        invariant
            k <= reductions@.len(),
            model == crate::text::views(reductions@),
            time == latest_reduction(model, start_ms, k as nat),
        decreases reductions@.len() - k,
    {
        assert(model[k as int] == reductions@[k as int]@);
        time = time.max(reductions[k].placement.finish_ms);
        k = k + 1;
    }
    time
}

/// Objects are not there before the last of them is.
proof fn lemma_inputs_ready(ready: Map<u128, Binary64>, ids: Seq<ObjectId>, start_ms: Binary64, k: nat)
    requires
        !start_ms.nan(),
        k <= ids.len(),
    ensures
        !inputs_ready(ready, ids, start_ms, k).nan(),
        start_ms.at_most(inputs_ready(ready, ids, start_ms, k)),
        forall|j: int|
            0 <= j < k && ready.contains_key((#[trigger] ids[j]).0) ==> !inputs_ready(
                ready,
                ids,
                start_ms,
                k,
            ).less(ready[ids[j].0]),
    decreases k,
{
    if k > 0 {
        lemma_inputs_ready(ready, ids, start_ms, (k - 1) as nat);
        if ready.contains_key(ids[k - 1].0) {
            crate::binary64::lemma_maximum(
                inputs_ready(ready, ids, start_ms, (k - 1) as nat),
                ready[ids[k - 1].0],
            );
        }
    }
}

/// A reducer is not predicted to start before the objects that it takes are there, nor before the
/// shards of its role could.
pub proof fn law_reducers_wait_for_their_inputs(
    context: ContextModel,
    mentioned: Seq<u128>,
    reduction: ReductionModel,
    start_ms: Binary64,
    group: Seq<ObjectId>,
    level: nat,
    index: nat,
    tree: TreeModel,
)
    requires
        !start_ms.nan(),
        group.len() > 1,
    ensures
        reduced_group(context, mentioned, reduction, start_ms, group, level, index, tree) matches Some(
            next,
        ) ==> {
            let reducer = next.reductions.last();
            &&& next.reductions == tree.reductions.push(reducer)
            &&& reducer.inputs == group.len()
            &&& start_ms.at_most(reducer.placement.start_ms)
            &&& forall|j: int|
                0 <= j < group.len() && tree.ready.contains_key((#[trigger] group[j]).0)
                    ==> !reducer.placement.start_ms.less(tree.ready[group[j].0])
        },
{
    lemma_inputs_ready(tree.ready, group, start_ms, group.len());
    let ready_ms = inputs_ready(tree.ready, group, start_ms, group.len());
    crate::shards::lemma_best_resource_start(
        ContextModel { objects: tree.objects, ..context },
        0,
        reduction.name,
        reduction.task.instantiated(group, crate::shards::anonymous()),
        ready_ms,
        tree.availability,
        None,
        context.resources.len(),
    );
    if let Some(next) = reduced_group(
        context,
        mentioned,
        reduction,
        start_ms,
        group,
        level,
        index,
        tree,
    ) {
        let reducer = next.reductions.last();
        assert(next.reductions =~= tree.reductions.push(reducer));
        assert forall|j: int|
            0 <= j < group.len() && tree.ready.contains_key((#[trigger] group[j]).0) implies !reducer.placement.start_ms.less(
        tree.ready[group[j].0]) by {
            assert(!ready_ms.less(tree.ready[group[j].0]));
            assert(ready_ms.at_most(reducer.placement.start_ms));
        }
    }
}

proof fn lemma_reduced_level_left(
    context: ContextModel,
    mentioned: Seq<u128>,
    reduction: ReductionModel,
    start_ms: Binary64,
    groups: Seq<Seq<ObjectId>>,
    level: nat,
    tree: TreeModel,
    k: nat,
)
    requires
        k <= groups.len(),
        forall|i: int| 0 <= i < groups.len() ==> (#[trigger] groups[i]).len() > 0,
    ensures
        reduced_level(context, mentioned, reduction, start_ms, groups, level, tree, k) matches Some(next)
            ==> next.left.len() == tree.left.len() + groups.len() - k,
    decreases groups.len() - k,
{
    if k < groups.len() {
        assert(groups[k as int].len() > 0);
        if let Some(next) = reduced_group(
            context,
            mentioned,
            reduction,
            start_ms,
            groups[k as int],
            level,
            k,
            tree,
        ) {
            lemma_reduced_level_left(
                context,
                mentioned,
                reduction,
                start_ms,
                groups,
                level,
                next,
                k + 1,
            );
        }
    }
}

/// A predicted tree brings all objects together: exactly one is left.
pub proof fn law_predicted_trees_leave_one_object(
    context: ContextModel,
    mentioned: Seq<u128>,
    reduction: ReductionModel,
    start_ms: Binary64,
    level: nat,
    tree: TreeModel,
    steps: nat,
)
    requires
        reduction.max_fan_in >= 2,
        0 < tree.left.len() <= steps,
    ensures
        reduced(context, mentioned, reduction, start_ms, level, tree, steps) matches Some(done)
            ==> done.left.len() == 1,
    decreases steps,
{
    if tree.left.len() > 1 {
        let places = crate::reduction::places_of(tree.objects, tree.left);
        let grouping = crate::reduction::grouping_of(
            context.links,
            reduction.max_fan_in,
            reduction.locality_rtt_ms,
        );
        let ends = grouping.ends(places);
        let groups = crate::reduction::level_groups(context.links, reduction, tree.objects, tree.left);
        crate::reduction::law_groups_keep_the_order(grouping, places);
        crate::reduction::law_levels_make_progress(grouping, places);
        assert forall|i: int| 0 <= i < groups.len() implies (#[trigger] groups[i]).len() > 0 by {
            crate::reduction::lemma_ends_within(ends, tree.left.len() as int, grouping.max_fan_in, i);
        }
        let empty = TreeModel { left: Seq::empty(), ..tree };
        lemma_reduced_level_left(
            context,
            mentioned,
            reduction,
            start_ms,
            groups,
            level,
            empty,
            0,
        );
        if let Some(next) = reduced_level(
            context,
            mentioned,
            reduction,
            start_ms,
            groups,
            level,
            empty,
            0,
        ) {
            law_predicted_trees_leave_one_object(
                context,
                mentioned,
                reduction,
                start_ms,
                level + 1,
                next,
                (steps - 1) as nat,
            );
        }
    }
}

/// No reducer starts before a given time.
pub open spec fn all_from(reductions: Seq<PlannedReductionModel>, start_ms: Binary64) -> bool {
    forall|j: int|
        0 <= j < reductions.len() ==> start_ms.at_most((#[trigger] reductions[j]).placement.start_ms)
}

proof fn lemma_reduced_level_start(
    context: ContextModel,
    mentioned: Seq<u128>,
    reduction: ReductionModel,
    start_ms: Binary64,
    groups: Seq<Seq<ObjectId>>,
    level: nat,
    tree: TreeModel,
    k: nat,
)
    requires
        !start_ms.nan(),
        all_from(tree.reductions, start_ms),
    ensures
        reduced_level(context, mentioned, reduction, start_ms, groups, level, tree, k) matches Some(next)
            ==> all_from(next.reductions, start_ms),
    decreases groups.len() - k,
{
    if k < groups.len() {
        let group = groups[k as int];
        if let Some(next) = reduced_group(
            context,
            mentioned,
            reduction,
            start_ms,
            group,
            level,
            k,
            tree,
        ) {
            if group.len() > 1 {
                law_reducers_wait_for_their_inputs(
                    context,
                    mentioned,
                    reduction,
                    start_ms,
                    group,
                    level,
                    k,
                    tree,
                );
            }
            lemma_reduced_level_start(
                context,
                mentioned,
                reduction,
                start_ms,
                groups,
                level,
                next,
                k + 1,
            );
        }
    }
}

/// No reducer of a tree starts before the shards of its role could.
pub proof fn lemma_reduced_start(
    context: ContextModel,
    mentioned: Seq<u128>,
    reduction: ReductionModel,
    start_ms: Binary64,
    level: nat,
    tree: TreeModel,
    steps: nat,
)
    requires
        !start_ms.nan(),
        all_from(tree.reductions, start_ms),
    ensures
        reduced(context, mentioned, reduction, start_ms, level, tree, steps) matches Some(done)
            ==> all_from(done.reductions, start_ms),
    decreases steps,
{
    if tree.left.len() > 1 && steps > 0 && reduction.max_fan_in > 0 {
        let groups = crate::reduction::level_groups(context.links, reduction, tree.objects, tree.left);
        let empty = TreeModel { left: Seq::empty(), ..tree };
        lemma_reduced_level_start(
            context,
            mentioned,
            reduction,
            start_ms,
            groups,
            level,
            empty,
            0,
        );
        if let Some(next) = reduced_level(
            context,
            mentioned,
            reduction,
            start_ms,
            groups,
            level,
            empty,
            0,
        ) {
            lemma_reduced_start(
                context,
                mentioned,
                reduction,
                start_ms,
                level + 1,
                next,
                (steps - 1) as nat,
            );
        }
    }
}

/// No reducer finishes after the latest.
pub proof fn lemma_latest_reduction(reductions: Seq<PlannedReductionModel>, start_ms: Binary64, k: nat)
    requires
        !start_ms.nan(),
        k <= reductions.len(),
    ensures
        !latest_reduction(reductions, start_ms, k).nan(),
        start_ms.at_most(latest_reduction(reductions, start_ms, k)),
        forall|j: int|
            0 <= j < k ==> !latest_reduction(reductions, start_ms, k).less(
                (#[trigger] reductions[j]).placement.finish_ms,
            ),
    decreases k,
{
    if k > 0 {
        lemma_latest_reduction(reductions, start_ms, (k - 1) as nat);
        crate::binary64::lemma_maximum(
            latest_reduction(reductions, start_ms, (k - 1) as nat),
            reductions[k - 1].placement.finish_ms,
        );
    }
}

}
