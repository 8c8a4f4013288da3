//! The fabric: membership, objects, tasks and jobs, and the leases that tie them together.

use std::collections::BTreeMap;
use vstd::prelude::*;
use vstd::string::*;

use crate::binary64::Binary64;
use crate::chains::{select_ready_fusion, FusionContext, ReadyFusionSelection};
use crate::clock::now_unix_ms;
use crate::collections::{keys_of, NameMap};
use crate::fabric_model::{
    BindingModel, FabricModel, JobRecordModel, Outcome, ReadyModel, RegisteredModel,
    TaskRecordModel,
};
use crate::ids::{ExecutionId, JobId, ObjectId, ResourceId, TaskId};
use crate::jobs::{
    CooperativeJobSpec, CooperativeRoleSpec, JobDefinition, JobModel, LogicalJobSpec,
    LogicalRoleSpec, RoleReductionSpec,
};
use crate::objects::{holds_resource, same_object_identity, ObjectMetadata};
use crate::planner::{plan, select_ready_role, CooperativePlan, PlanModel};
use crate::reduction::group_objects;
use crate::resources::ResourceDescriptor;
use crate::role_graph::NodeModel;
use crate::scheduler::{FusionAdvisor, PlacementDecision, TopologyAwareScheduler};
use crate::shards::{select_ready_shards, ReadyShardSelection, ShardPlanningContext};
use crate::status::{
    CooperativeJobStatus, CooperativeRoleStatus, CooperativeRoleView, FabricError,
    FabricErrorModel, ReductionStatus, ReductionStatusModel, RoleFusionView, RoleSelection,
    RoleShardModel, RoleShardView, RoleStatusModel, ShardStatus, ShardStatusModel, TaskStatus,
    TaskStatusModel,
};
use crate::tasks::{extend_objects, ExecutionLease, MembershipLease, TaskSpec, TaskTemplate};
use crate::text::{holds_text, same_text, same_texts};
use crate::topology::{LinkProfile, TopologySnapshot};
use crate::validation::{
    validate_cooperative_job, validate_task, validate_logical_job, PlanError, PlanErrorModel,
};

verus! {

broadcast use {vstd::std_specs::btree::group_btree_axioms, crate::collections::group_models};

#[derive(Clone, Debug)]
pub struct RegisteredResource {
    pub descriptor: ResourceDescriptor,
    pub expires_at_unix_ms: u64,
}

impl View for RegisteredResource {
    type V = RegisteredModel;

    open spec fn view(&self) -> RegisteredModel {
        RegisteredModel {
            descriptor: self.descriptor@,
            expires_at_unix_ms: self.expires_at_unix_ms,
        }
    }
}

#[derive(Clone, Debug)]
pub struct TaskRecord {
    pub spec: TaskSpec,
    pub status: TaskStatus,
}

impl View for TaskRecord {
    type V = TaskRecordModel;

    open spec fn view(&self) -> TaskRecordModel {
        TaskRecordModel { spec: self.spec@, status: self.status@ }
    }
}

/// The choices for the shards of a role.
#[derive(Clone, Debug)]
pub struct RoleShards {
    pub shards: Vec<RoleShardView>,
}

impl View for RoleShards {
    type V = Seq<RoleShardModel>;

    open spec fn view(&self) -> Seq<RoleShardModel> {
        crate::text::views(self.shards@)
    }
}

#[derive(Clone, Debug)]
pub struct CooperativeJobRecord {
    pub definition: JobDefinition,
    pub roles: NameMap<CooperativeRoleStatus>,
    pub selections: NameMap<RoleSelection>,
    pub shards: NameMap<RoleShards>,
}

impl View for CooperativeJobRecord {
    type V = JobRecordModel;

    open spec fn view(&self) -> JobRecordModel {
        JobRecordModel {
            definition: self.definition@,
            roles: crate::collections::name_views(self.roles@),
            selections: crate::collections::name_views(self.selections@),
            shards: crate::collections::name_views(self.shards@),
        }
    }
}

#[derive(Debug)]
pub enum TaskRoleBinding {
    Single { job_id: JobId, role_name: String },
    FusedChain { job_id: JobId, role_names: Vec<String> },
    Shard { job_id: JobId, role_name: String, index: usize },
    Reducer { job_id: JobId, role_name: String, index: usize },
}

impl View for TaskRoleBinding {
    type V = BindingModel;

    open spec fn view(&self) -> BindingModel {
        match self {
            TaskRoleBinding::Single { job_id, role_name } => BindingModel::Single {
                job_id: *job_id,
                role_name: role_name@,
            },
            TaskRoleBinding::FusedChain { job_id, role_names } => BindingModel::FusedChain {
                job_id: *job_id,
                role_names: crate::text::views(role_names@),
            },
            TaskRoleBinding::Shard { job_id, role_name, index } => BindingModel::Shard {
                job_id: *job_id,
                role_name: role_name@,
                index: *index,
            },
            TaskRoleBinding::Reducer { job_id, role_name, index } => BindingModel::Reducer {
                job_id: *job_id,
                role_name: role_name@,
                index: *index,
            },
        }
    }
}

impl Clone for TaskRoleBinding {
    fn clone(&self) -> (r: TaskRoleBinding)
        ensures
            r@ == self@,
    {
        match self {
            TaskRoleBinding::Single { job_id, role_name } => TaskRoleBinding::Single {
                job_id: *job_id,
                role_name: role_name.clone(),
            },
            TaskRoleBinding::FusedChain { job_id, role_names } => {
                let copy = role_names.clone();
                assert(crate::text::views(copy@) =~= crate::text::views(role_names@));
                TaskRoleBinding::FusedChain { job_id: *job_id, role_names: copy }
            },
            TaskRoleBinding::Shard { job_id, role_name, index } => TaskRoleBinding::Shard {
                job_id: *job_id,
                role_name: role_name.clone(),
                index: *index,
            },
            TaskRoleBinding::Reducer { job_id, role_name, index } => TaskRoleBinding::Reducer {
                job_id: *job_id,
                role_name: role_name.clone(),
                index: *index,
            },
        }
    }
}

/// All that a coordinator knows.
#[derive(Debug)]
pub struct Fabric {
    resources: BTreeMap<u128, RegisteredResource>,
    /// The last epoch of every resource that has ever registered.
    epochs: BTreeMap<u128, u64>,
    objects: BTreeMap<u128, ObjectMetadata>,
    tasks: BTreeMap<u128, TaskRecord>,
    jobs: BTreeMap<u128, CooperativeJobRecord>,
    task_roles: BTreeMap<u128, TaskRoleBinding>,
    topology: TopologySnapshot,
    scheduler: TopologyAwareScheduler,
    membership_ttl_ms: u64,
    execution_ttl_ms: u64,
}

impl View for Fabric {
    type V = FabricModel;

    closed spec fn view(&self) -> FabricModel {
        FabricModel {
            resources: crate::collections::modeled(self.resources@),
            epochs: self.epochs@,
            objects: crate::collections::modeled(self.objects@),
            tasks: crate::collections::modeled(self.tasks@),
            jobs: crate::collections::modeled(self.jobs@),
            task_roles: crate::collections::modeled(self.task_roles@),
            links: self.topology@,
            risk_multiplier: self.scheduler.risk_multiplier,
            membership_ttl_ms: self.membership_ttl_ms,
            execution_ttl_ms: self.execution_ttl_ms,
        }
    }
}

impl Clone for Fabric {
    fn clone(&self) -> (r: Fabric)
        ensures
            r@ == self@,
    {
        Fabric {
            resources: self.resources.clone(),
            epochs: self.epochs.clone(),
            objects: self.objects.clone(),
            tasks: self.tasks.clone(),
            jobs: self.jobs.clone(),
            task_roles: self.task_roles.clone(),
            topology: self.topology.clone(),
            scheduler: self.scheduler,
            membership_ttl_ms: self.membership_ttl_ms,
            execution_ttl_ms: self.execution_ttl_ms,
        }
    }
}

impl Default for Fabric {
    fn default() -> (r: Fabric)
        ensures
            r@ == FabricModel::empty(15_000, 60_000),
            r@.wf(),
    {
        Fabric::new(15_000, 60_000)
    }
}

/// An answer with its error as a plain value.
pub open spec fn plain<T>(r: Result<T, FabricError>) -> Result<T, FabricErrorModel> {
    match r {
        Ok(value) => Ok(value),
        Err(error) => Err(error@),
    }
}

fn retain_links(links: &Vec<LinkProfile>, a: ResourceId, b: ResourceId) -> (r: Vec<LinkProfile>)
    ensures
        r@ == links@.filter(|link: LinkProfile| !link.joins(a, b)),
{
    let ghost keep = |link: LinkProfile| !link.joins(a, b);
    let mut kept: Vec<LinkProfile> = Vec::new();
    let mut i: usize = 0;
    assert(links@.take(0).filter(keep) =~= Seq::<LinkProfile>::empty()) by {
        reveal(Seq::filter);
    }
    while i < links.len()
        invariant
            i <= links@.len(),
            keep == (|link: LinkProfile| !link.joins(a, b)),
            kept@ == links@.take(i as int).filter(keep),
        decreases links@.len() - i,
    {
        let link = links[i];
        proof {
            crate::collections::lemma_filter_step(links@, keep, i as int);
        }
        if !((link.from == a && link.to == b) || (link.from == b && link.to == a)) {
            kept.push(link);
        }
        i = i + 1;
    }
    assert(links@.take(links@.len() as int) =~= links@);
    kept
}

fn retain_links_without(links: &Vec<LinkProfile>, resource: ResourceId) -> (r: Vec<LinkProfile>)
    ensures
        r@ == links@.filter(|link: LinkProfile| link.from != resource && link.to != resource),
{
    let ghost keep = |link: LinkProfile| link.from != resource && link.to != resource;
    let mut kept: Vec<LinkProfile> = Vec::new();
    let mut i: usize = 0;
    assert(links@.take(0).filter(keep) =~= Seq::<LinkProfile>::empty()) by {
        reveal(Seq::filter);
    }
    while i < links.len()
        invariant
            i <= links@.len(),
            keep == (|link: LinkProfile| link.from != resource && link.to != resource),
            kept@ == links@.take(i as int).filter(keep),
        decreases links@.len() - i,
    {
        let link = links[i];
        proof {
            crate::collections::lemma_filter_step(links@, keep, i as int);
        }
        if link.from != resource && link.to != resource {
            kept.push(link);
        }
        i = i + 1;
    }
    assert(links@.take(links@.len() as int) =~= links@);
    kept
}

fn retain_locations(locations: &Vec<ResourceId>, resource: ResourceId) -> (r: Vec<ResourceId>)
    ensures
        r@ == locations@.filter(crate::fabric_model::elsewhere(resource)),
{
    let ghost keep = crate::fabric_model::elsewhere(resource);
    let mut kept: Vec<ResourceId> = Vec::new();
    let mut i: usize = 0;
    assert(locations@.take(0).filter(keep) =~= Seq::<ResourceId>::empty()) by {
        reveal(Seq::filter);
    }
    while i < locations.len()
        invariant
            i <= locations@.len(),
            keep == crate::fabric_model::elsewhere(resource),
            kept@ == locations@.take(i as int).filter(keep),
        decreases locations@.len() - i,
    {
        let location = locations[i];
        proof {
            crate::collections::lemma_filter_step(locations@, keep, i as int);
        }
        if location != resource {
            kept.push(location);
        }
        i = i + 1;
    }
    assert(locations@.take(locations@.len() as int) =~= locations@);
    kept
}

fn merge_locations(locations: &mut Vec<ResourceId>, others: &Vec<ResourceId>)
    ensures
        final(locations)@ == crate::fabric_model::merged_locations(
            old(locations)@,
            others@,
            others@.len(),
        ),
{
    let mut k: usize = 0;
    while k < others.len()
        invariant
            k <= others@.len(),
            locations@ == crate::fabric_model::merged_locations(
                old(locations)@,
                others@,
                k as nat,
            ),
        decreases others@.len() - k,
    {
        if !holds_resource(locations, others[k]) {
            locations.push(others[k]);
        }
        k = k + 1;
    }
}

impl Fabric {
    pub fn new(membership_ttl_ms: u64, execution_ttl_ms: u64) -> (r: Fabric)
        ensures
            r@ == FabricModel::empty(membership_ttl_ms, execution_ttl_ms),
            r@.wf(),
    {
        let r = Fabric {
            resources: BTreeMap::new(),
            epochs: BTreeMap::new(),
            objects: BTreeMap::new(),
            tasks: BTreeMap::new(),
            jobs: BTreeMap::new(),
            task_roles: BTreeMap::new(),
            topology: TopologySnapshot::default(),
            scheduler: TopologyAwareScheduler::default(),
            membership_ttl_ms,
            execution_ttl_ms,
        };
        assert(r@ =~= FabricModel::empty(membership_ttl_ms, execution_ttl_ms));
        r
    }

    pub fn set_topology(&mut self, topology: TopologySnapshot)
        ensures
            final(self)@ == (FabricModel { links: topology@, ..old(self)@ }),
            old(self)@.wf() ==> final(self)@.wf(),
    {
        self.topology = topology;
    }

    pub fn upsert_link(&mut self, link: LinkProfile)
        ensures
            final(self)@ == old(self)@.with_link(link),
            old(self)@.wf() ==> final(self)@.wf(),
    {
        self.remove_link(link.from, link.to);
        self.topology.links.push(link);
    }

    pub fn remove_link(&mut self, from: ResourceId, to: ResourceId)
        ensures
            final(self)@ == old(self)@.without_link(from, to),
            old(self)@.wf() ==> final(self)@.wf(),
    {
        self.topology.links = retain_links(&self.topology.links, from, to);
        proof {
            if old(self)@.wf() {
                crate::fabric_model::lemma_wf_frame(old(self)@, self@);
            }
        }
    }

    pub fn topology(&self) -> (r: &TopologySnapshot)
        ensures
            r@ == self@.links,
    {
        &self.topology
    }

    /// Whether there is an epoch left for a new incarnation of a resource.
    pub fn can_register(&self, descriptor: &ResourceDescriptor) -> (r: bool)
        ensures
            r == (self@.next_epoch(descriptor@) <= u64::MAX),
    {
        match self.epochs.get(&descriptor.id.0) {
            Some(last) => *last < u64::MAX,
            None => true,
        }
    }

    /// Admits a resource, or a new incarnation of one, until its membership expires.
    pub fn register_resource(&mut self, descriptor: ResourceDescriptor) -> (lease: MembershipLease)
        requires
            old(self)@.wf(),
            old(self)@.next_epoch(descriptor@) <= u64::MAX,
        ensures
            final(self)@.wf(),
            exists|now: u64|
                {
                    &&& final(self)@ == #[trigger] old(self)@.registered(descriptor@, now)
                    &&& lease == old(self)@.membership(descriptor@, now)
                },
    {
        self.register_resource_at(descriptor, now_unix_ms())
    }

    /// Admits a resource at a given time.
    pub fn register_resource_at(&mut self, descriptor: ResourceDescriptor, now: u64) -> (lease:
        MembershipLease)
        requires
            old(self)@.wf(),
            old(self)@.next_epoch(descriptor@) <= u64::MAX,
        ensures
            final(self)@ == old(self)@.registered(descriptor@, now),
            final(self)@.wf(),
            lease == old(self)@.membership(descriptor@, now),
    {
        let ghost model = self@;
        proof {
            crate::fabric_model::lemma_wf_registered(model, descriptor@, now);
        }
        let ghost entrant = descriptor@;
        let mut descriptor = descriptor;
        let next_epoch: u64 = match self.epochs.get(&descriptor.id.0) {
            Some(last) => *last + 1,
            None => if descriptor.epoch > 1 {
                descriptor.epoch
            } else {
                1
            },
        };
        descriptor.epoch = next_epoch;
        let expires_at_unix_ms: u64 = now.saturating_add(self.membership_ttl_ms);
        let lease = MembershipLease {
            resource_id: descriptor.id,
            epoch: descriptor.epoch,
            expires_at_unix_ms,
        };
        self.epochs.insert(descriptor.id.0, next_epoch);
        self.resources.insert(
            descriptor.id.0,
            RegisteredResource { descriptor, expires_at_unix_ms },
        );
        assert(self@ =~= model.registered(entrant, now));
        lease
    }

    /// Renews the membership of the current incarnation of a resource.
    pub fn heartbeat(&mut self, resource_id: ResourceId, epoch: u64) -> (r: Result<
        MembershipLease,
        FabricError,
    >)
        requires
            old(self)@.wf(),
        ensures
            final(self)@.wf(),
            exists|now: u64|
                {
                    let outcome = #[trigger] old(self)@.heartbeat(resource_id, epoch, now);
                    final(self)@ == outcome.state && plain(r) == outcome.answer
                },
    {
        self.heartbeat_at(resource_id, epoch, now_unix_ms())
    }

    /// Renews a membership at a given time.
    pub fn heartbeat_at(&mut self, resource_id: ResourceId, epoch: u64, now: u64) -> (r: Result<
        MembershipLease,
        FabricError,
    >)
        requires
            old(self)@.wf(),
        ensures
            final(self)@.wf(),
            ({
                let outcome = old(self)@.heartbeat(resource_id, epoch, now);
                final(self)@ == outcome.state && plain(r) == outcome.answer
            }),
    {
        match self.resources.get(&resource_id.0) {
            None => {
                return Err(FabricError::ResourceNotActive(resource_id));
            },
            Some(registered) => {
                if registered.descriptor.epoch != epoch {
                    return Err(FabricError::StaleResourceEpoch(resource_id));
                }
            },
        }
        let expires_at_unix_ms: u64 = now.saturating_add(self.membership_ttl_ms);
        if let Some(registered) = self.resources.remove(&resource_id.0) {
            self.resources.insert(
                resource_id.0,
                RegisteredResource { descriptor: registered.descriptor, expires_at_unix_ms },
            );
        }
        assert(self@ =~= old(self)@.heartbeat(resource_id, epoch, now).state);
        Ok(MembershipLease { resource_id, epoch, expires_at_unix_ms })
    }
}

/// Forgets that objects are at a resource.
fn drop_location(objects: &mut BTreeMap<u128, ObjectMetadata>, resource_id: ResourceId)
    ensures
        crate::collections::modeled(final(objects)@) == Map::new(
            |k: u128| crate::collections::modeled(old(objects)@).contains_key(k),
            |k: u128|
                crate::fabric_model::withdrawn(
                    crate::collections::modeled(old(objects)@)[k],
                    resource_id,
                ),
        ),
{
    let ghost before = crate::collections::modeled(objects@);
    let keys = keys_of(objects);
    let mut i: usize = 0;
    while i < keys.len()
        invariant
            i <= keys@.len(),
            before == crate::collections::modeled(old(objects)@),
            crate::collections::ascending(keys@),
            keys@.to_set() == before.dom(),
            objects@.dom() == before.dom(),
            forall|j: int| 0 <= j < i ==> (#[trigger] objects@[keys@[j]])@ == crate::fabric_model::withdrawn(before[keys@[j]], resource_id),
            forall|j: int| i <= j < keys@.len() ==> (#[trigger] objects@[keys@[j]])@ == before[keys@[j]],
        decreases keys@.len() - i,
    {
        let key: u128 = keys[i];
        assert(keys@.to_set().contains(key));
        assert(objects@[keys@[i as int]]@ == before[key]);
        let ghost previous = objects@;
        if let Some(object) = objects.remove(&key) {
            let locations = retain_locations(&object.locations, resource_id);
            let updated = ObjectMetadata {
                id: object.id,
                size_bytes: object.size_bytes,
                digest: object.digest,
                encoding: object.encoding,
                locations,
                producer: object.producer,
            };
            assert(updated@ == crate::fabric_model::withdrawn(before[key], resource_id));
            objects.insert(key, updated);
        }
        assert(objects@.dom() =~= before.dom());
        assert forall|j: int| 0 <= j < keys@.len() && j != i implies objects@[#[trigger] keys@[j]]
            == previous[keys@[j]] by {}
        i = i + 1;
    }
    proof {
        let after = crate::collections::modeled(objects@);
        assert forall|k: u128| before.contains_key(k) implies #[trigger] after[k] == crate::fabric_model::withdrawn(before[k], resource_id) by {
            assert(keys@.to_set().contains(k));
            let j = choose|j: int| 0 <= j < keys@.len() && keys@[j] == k;
            assert(objects@[keys@[j]]@ == crate::fabric_model::withdrawn(before[keys@[j]], resource_id));
        }
        assert(after =~= Map::new(
            |k: u128| before.contains_key(k),
            |k: u128| crate::fabric_model::withdrawn(before[k], resource_id),
        ));
    }
}

impl Fabric {
    fn remove_resource(&mut self, resource_id: ResourceId)
        requires
            old(self)@.wf(),
        ensures
            final(self)@ == old(self)@.without_resource(resource_id),
            final(self)@.wf(),
    {
        proof {
            crate::fabric_model::lemma_wf_without_resource(self@, resource_id);
        }
        self.resources.remove(&resource_id.0);
        drop_location(&mut self.objects, resource_id);
        self.topology.links = retain_links_without(&self.topology.links, resource_id);
        assert(self@ =~= old(self)@.without_resource(resource_id));
    }

    /// Dismisses a resource.
    pub fn unregister_resource(&mut self, resource_id: ResourceId)
        requires
            old(self)@.wf(),
        ensures
            final(self)@ == old(self)@.without_resource(resource_id),
            final(self)@.wf(),
    {
        self.remove_resource(resource_id);
    }

    /// Dismisses the resources whose membership has expired, and names them.
    pub fn expire_resources_at(&mut self, unix_ms: u64) -> (expired: Vec<ResourceId>)
        requires
            old(self)@.wf(),
        ensures
            ({
                let keys = old(self)@.expired(unix_ms);
                &&& expired@ == keys.map_values(|k: u128| ResourceId(k))
                &&& final(self)@ == old(self)@.without_resources(keys, keys.len())
            }),
            final(self)@.wf(),
    {
        let ghost model = self@;
        let ghost overdue = |k: u128| model.resources[k].expires_at_unix_ms <= unix_ms;
        let keys = keys_of(&self.resources);
        let mut ids: Vec<u128> = Vec::new();
        let mut expired: Vec<ResourceId> = Vec::new();
        let mut i: usize = 0;
        assert(keys@.take(0).filter(overdue) =~= Seq::<u128>::empty()) by {
            reveal(Seq::filter);
        }
        while i < keys.len()
            invariant
                i <= keys@.len(),
                model == self@,
                overdue == (|k: u128| model.resources[k].expires_at_unix_ms <= unix_ms),
                keys@.to_set() == self.resources@.dom(),
                ids@ == keys@.take(i as int).filter(overdue),
                expired@ == ids@.map_values(|k: u128| ResourceId(k)),
            decreases keys@.len() - i,
        {
            let key: u128 = keys[i];
            proof {
                crate::collections::lemma_filter_step(keys@, overdue, i as int);
                assert(keys@.to_set().contains(key));
                assert(self.resources@.contains_key(key));
            }
            if let Some(resource) = self.resources.get(&key) {
                if resource.expires_at_unix_ms <= unix_ms {
                    ids.push(key);
                    expired.push(ResourceId(key));
                    assert(expired@ =~= ids@.map_values(|k: u128| ResourceId(k)));
                }
            }
            i = i + 1;
        }
        proof {
            assert(keys@.take(keys@.len() as int) =~= keys@);
            assert(self.resources@.dom() =~= model.resources.dom());
            assert(ids@ == model.expired(unix_ms));
        }
        let mut k: usize = 0;
        while k < ids.len()
            invariant
                k <= ids@.len(),
                self@.wf(),
                self@ == model.without_resources(ids@, k as nat),
            decreases ids@.len() - k,
        {
            self.remove_resource(ResourceId(ids[k]));
            k = k + 1;
        }
        expired
    }

    /// Announces an object, or further locations of one that is already known.
    pub fn publish_object(&mut self, object: ObjectMetadata) -> (r: Result<(), FabricError>)
        requires
            old(self)@.wf(),
        ensures
            ({
                let outcome = old(self)@.published(object@);
                final(self)@ == outcome.state && plain(r) == outcome.answer
            }),
            final(self)@.wf(),
    {
        let key: u128 = object.id.0;
        let id = object.id;
        let ghost model = self@;
        match self.objects.get(&key) {
            Some(existing) => {
                if !same_object_identity(existing, &object) {
                    return Err(FabricError::ObjectConflict(id));
                }
            },
            None => {
                proof {
                    crate::fabric_model::lemma_wf_objects(model, model.objects.insert(key, object@));
                }
                self.objects.insert(key, object);
                assert(self@ =~= model.published(object@).state);
                return Ok(());
            },
        }
        if let Some(existing) = self.objects.remove(&key) {
            let mut existing = existing;
            merge_locations(&mut existing.locations, &object.locations);
            proof {
                crate::fabric_model::lemma_wf_objects(
                    model,
                    model.objects.insert(key, existing@),
                );
            }
            self.objects.insert(key, existing);
        }
        assert(self@ =~= model.published(object@).state);
        Ok(())
    }

    /// Records that an object is at a resource too.
    pub fn add_object_location(&mut self, object_id: ObjectId, resource_id: ResourceId) -> (r: Result<
        (),
        FabricError,
    >)
        requires
            old(self)@.wf(),
        ensures
            ({
                let outcome = old(self)@.located(object_id, resource_id);
                final(self)@ == outcome.state && plain(r) == outcome.answer
            }),
            final(self)@.wf(),
    {
        let ghost model = self@;
        match self.objects.remove(&object_id.0) {
            Some(object) => {
                let mut object = object;
                let mut locations: Vec<ResourceId> = Vec::new();
                locations.push(resource_id);
                assert(locations@ =~= seq![resource_id]);
                merge_locations(&mut object.locations, &locations);
                proof {
                    crate::fabric_model::lemma_wf_objects(
                        model,
                        model.objects.insert(object_id.0, object@),
                    );
                }
                self.objects.insert(object_id.0, object);
                assert(self@ =~= model.located(object_id, resource_id).state);
                Ok(())
            },
            None => {
                assert(self@ =~= model);
                Err(FabricError::UnknownObject(object_id))
            },
        }
    }

    pub fn object_metadata(&self, object_id: ObjectId) -> (r: Option<&ObjectMetadata>)
        ensures
            match r {
                Some(object) => self@.objects.contains_key(object_id.0) && object@
                    == self@.objects[object_id.0],
                None => !self@.objects.contains_key(object_id.0),
            },
    {
        self.objects.get(&object_id.0)
    }

    /// Accepts a valid task under a new identity.
    pub fn submit(&mut self, task: TaskSpec) -> (r: Result<TaskId, FabricError>)
        requires
            old(self)@.wf(),
        ensures
            ({
                let outcome = old(self)@.submitted(task@);
                final(self)@ == outcome.state && plain(r) == outcome.answer
            }),
            final(self)@.wf(),
    {
        if let Err(message) = validate_task(&task) {
            return Err(FabricError::InvalidTask(message));
        }
        let id = task.id;
        if self.tasks.contains_key(&id.0) {
            return Err(FabricError::DuplicateTask(id));
        }
        let ghost model = self@;
        proof {
            crate::fabric_model::lemma_wf_tasks(model, model.submitted(task@).state.tasks);
        }
        self.tasks.insert(id.0, TaskRecord { spec: task, status: TaskStatus::Pending });
        assert(self@ =~= model.submitted(task@).state);
        Ok(id)
    }

    pub fn job_definition(&self, job_id: JobId) -> (r: Option<&JobDefinition>)
        ensures
            match r {
                Some(definition) => self@.jobs.contains_key(job_id.0) && definition@
                    == self@.jobs[job_id.0].definition,
                None => !self@.jobs.contains_key(job_id.0),
            },
    {
        match self.jobs.get(&job_id.0) {
            Some(record) => Some(&record.definition),
            None => None,
        }
    }

    pub fn task_status(&self, task_id: TaskId) -> (r: Option<&TaskStatus>)
        ensures
            match r {
                Some(status) => self@.tasks.contains_key(task_id.0) && status@
                    == self@.tasks[task_id.0].status,
                None => !self@.tasks.contains_key(task_id.0),
            },
    {
        match self.tasks.get(&task_id.0) {
            Some(record) => Some(&record.status),
            None => None,
        }
    }

    pub fn task_spec(&self, task_id: TaskId) -> (r: Option<&TaskSpec>)
        ensures
            match r {
                Some(spec) => self@.tasks.contains_key(task_id.0) && spec@
                    == self@.tasks[task_id.0].spec,
                None => !self@.tasks.contains_key(task_id.0),
            },
    {
        match self.tasks.get(&task_id.0) {
            Some(record) => Some(&record.spec),
            None => None,
        }
    }

    /// The tasks that wait for a resource, by identifier.
    pub fn pending_task_ids(&self) -> (r: Vec<TaskId>)
        ensures
            r@ == self@.pending_keys().map_values(|k: u128| TaskId(k)),
    {
        let ghost model = self@;
        let ghost pending = |k: u128| model.tasks[k].status is Pending;
        let keys = keys_of(&self.tasks);
        let mut r: Vec<TaskId> = Vec::new();
        let mut i: usize = 0;
        assert(keys@.take(0).filter(pending) =~= Seq::<u128>::empty()) by {
            reveal(Seq::filter);
        }
        assert(r@ =~= keys@.take(0).filter(pending).map_values(|k: u128| TaskId(k)));
        while i < keys.len()
            invariant
                i <= keys@.len(),
                model == self@,
                pending == (|k: u128| model.tasks[k].status is Pending),
                keys@.to_set() == self.tasks@.dom(),
                r@ == keys@.take(i as int).filter(pending).map_values(|k: u128| TaskId(k)),
            decreases keys@.len() - i,
        {
            let key: u128 = keys[i];
            proof {
                crate::collections::lemma_filter_step(keys@, pending, i as int);
                assert(keys@.to_set().contains(key));
                assert(self.tasks@.contains_key(key));
            }
            let ghost before = keys@.take(i as int).filter(pending);
            if let Some(record) = self.tasks.get(&key) {
                if record.status.is_pending() {
                    r.push(TaskId(key));
                    assert(r@ =~= before.push(key).map_values(|k: u128| TaskId(k)));
                }
            }
            i = i + 1;
        }
        proof {
            assert(keys@.take(keys@.len() as int) =~= keys@);
            assert(self.tasks@.dom() =~= model.tasks.dom());
            assert(pending =~= (|k: u128| self@.tasks[k].status is Pending));
        }
        r
    }
}

impl Fabric {
    /// The resources whose membership has not expired, by identifier.
    pub fn active_resources(&self) -> (r: Vec<ResourceDescriptor>)
        ensures
            exists|now: u64|
                crate::text::views(r@) == self@.descriptors(#[trigger] self@.active_keys(now)),
    {
        self.active_resources_at(now_unix_ms())
    }

    /// The resources that are active at a given time, by identifier.
    pub fn active_resources_at(&self, now: u64) -> (r: Vec<ResourceDescriptor>)
        ensures
            crate::text::views(r@) == self@.descriptors(self@.active_keys(now)),
    {
        let ghost model = self@;
        let ghost keep = |k: u128| model.active(k, now);
        let keys = keys_of(&self.resources);
        let mut r: Vec<ResourceDescriptor> = Vec::new();
        let mut i: usize = 0;
        assert(keys@.take(0).filter(keep) =~= Seq::<u128>::empty()) by {
            reveal(Seq::filter);
        }
        assert(crate::text::views(r@) =~= model.descriptors(keys@.take(0).filter(keep)));
        while i < keys.len()
            invariant
                i <= keys@.len(),
                model == self@,
                keep == (|k: u128| model.active(k, now)),
                keys@.to_set() == self.resources@.dom(),
                crate::text::views(r@) == model.descriptors(keys@.take(i as int).filter(keep)),
            decreases keys@.len() - i,
        {
            let key: u128 = keys[i];
            let ghost before = keys@.take(i as int).filter(keep);
            proof {
                crate::collections::lemma_filter_step(keys@, keep, i as int);
                assert(keys@.to_set().contains(key));
                assert(self.resources@.contains_key(key));
            }
            if let Some(resource) = self.resources.get(&key) {
                if resource.expires_at_unix_ms > now {
                    let ghost shown = crate::text::views(r@);
                    r.push(resource.descriptor.clone());
                    assert(crate::text::views(r@) =~= shown.push(model.resources[key].descriptor));
                    assert(crate::text::views(r@) =~= model.descriptors(before.push(key)));
                }
            }
            i = i + 1;
        }
        proof {
            assert(keys@.take(keys@.len() as int) =~= keys@);
            assert(self.resources@.dom() =~= model.resources.dom());
        }
        r
    }

    /// The number of resources whose membership has not expired.
    pub fn active_resource_count(&self) -> (r: usize)
        ensures
            exists|now: u64| r == (#[trigger] self@.active_keys(now)).len(),
    {
        self.active_resource_count_at(now_unix_ms())
    }

    /// The number of resources that are active at a given time.
    pub fn active_resource_count_at(&self, now: u64) -> (r: usize)
        ensures
            r == self@.active_keys(now).len(),
    {
        let active = self.active_resources_at(now);
        assert(crate::text::views(active@).len() == self@.active_keys(now).len());
        active.len()
    }

    /// The incarnation of an active resource.
    pub fn resource_epoch(&self, resource_id: ResourceId) -> (r: Option<u64>)
        ensures
            exists|now: u64|
                r == if #[trigger] self@.active(resource_id.0, now) {
                    Some(self@.resources[resource_id.0].descriptor.epoch)
                } else {
                    None
                },
    {
        let now = now_unix_ms();
        let r = self.resource_epoch_at(resource_id, now);
        assert(self@.active(resource_id.0, now) || !self@.active(resource_id.0, now));
        r
    }

    /// The incarnation of a resource that is active at a given time.
    pub fn resource_epoch_at(&self, resource_id: ResourceId, now: u64) -> (r: Option<u64>)
        ensures
            r == if self@.active(resource_id.0, now) {
                Some(self@.resources[resource_id.0].descriptor.epoch)
            } else {
                None
            },
    {
        match self.resources.get(&resource_id.0) {
            Some(resource) => if resource.expires_at_unix_ms > now {
                Some(resource.descriptor.epoch)
            } else {
                None
            },
            None => None,
        }
    }

    fn is_busy(&self, resource_id: ResourceId, now: u64) -> (r: bool)
        ensures
            r == self@.busy(resource_id, now),
    {
        let keys = keys_of(&self.tasks);
        let mut i: usize = 0;
        while i < keys.len()
            invariant
                i <= keys@.len(),
                keys@.to_set() == self.tasks@.dom(),
                forall|j: int| 0 <= j < i ==> !self@.occupies(#[trigger] keys@[j], resource_id, now),
            decreases keys@.len() - i,
        {
            let key: u128 = keys[i];
            assert(keys@.to_set().contains(key));
            assert(self@.tasks.contains_key(key));
            if let Some(record) = self.tasks.get(&key) {
                if let TaskStatus::Running(lease) = &record.status {
                    if lease.expires_at_unix_ms > now && lease.resource_id == resource_id {
                        assert(self@.occupies(key, resource_id, now));
                        return true;
                    }
                }
            }
            i = i + 1;
        }
        proof {
            assert forall|k: u128| #[trigger] self@.tasks.contains_key(k) implies !self@.occupies(
                k,
                resource_id,
                now,
            ) by {
                assert(keys@.to_set().contains(k));
                let j = choose|j: int| 0 <= j < keys@.len() && keys@[j] == k;
                assert(!self@.occupies(keys@[j], resource_id, now));
            }
        }
        false
    }

    /// The active resources on which nothing runs, by identifier.
    fn schedulable_resources(&self, now: u64) -> (r: Vec<ResourceDescriptor>)
        ensures
            crate::text::views(r@) == self@.descriptors(self@.idle_keys(now)),
    {
        let ghost model = self@;
        let ghost keep = |k: u128|
            model.active(k, now) && !model.busy(model.resources[k].descriptor.id, now);
        let keys = keys_of(&self.resources);
        let mut r: Vec<ResourceDescriptor> = Vec::new();
        let mut i: usize = 0;
        assert(keys@.take(0).filter(keep) =~= Seq::<u128>::empty()) by {
            reveal(Seq::filter);
        }
        assert(crate::text::views(r@) =~= model.descriptors(keys@.take(0).filter(keep)));
        while i < keys.len()
            invariant
                i <= keys@.len(),
                model == self@,
                keep == (|k: u128|
                    model.active(k, now) && !model.busy(model.resources[k].descriptor.id, now)),
                keys@.to_set() == self.resources@.dom(),
                crate::text::views(r@) == model.descriptors(keys@.take(i as int).filter(keep)),
            decreases keys@.len() - i,
        {
            let key: u128 = keys[i];
            let ghost before = keys@.take(i as int).filter(keep);
            proof {
                crate::collections::lemma_filter_step(keys@, keep, i as int);
                assert(keys@.to_set().contains(key));
                assert(self.resources@.contains_key(key));
            }
            if let Some(resource) = self.resources.get(&key) {
                if resource.expires_at_unix_ms > now && !self.is_busy(resource.descriptor.id, now) {
                    let ghost shown = crate::text::views(r@);
                    r.push(resource.descriptor.clone());
                    assert(crate::text::views(r@) =~= shown.push(model.resources[key].descriptor));
                    assert(crate::text::views(r@) =~= model.descriptors(before.push(key)));
                }
            }
            i = i + 1;
        }
        proof {
            assert(keys@.take(keys@.len() as int) =~= keys@);
            assert(self.resources@.dom() =~= model.resources.dom());
        }
        r
    }

    /// Chooses the resource for a pending task.
    pub fn schedule_task(&self, task_id: TaskId) -> (r: Result<PlacementDecision, FabricError>)
        ensures
            exists|now: u64| plain(r) == #[trigger] self@.scheduled(task_id, now),
    {
        self.schedule_task_at(task_id, now_unix_ms())
    }

    /// Chooses the resource for a pending task at a given time.
    pub fn schedule_task_at(&self, task_id: TaskId, now: u64) -> (r: Result<
        PlacementDecision,
        FabricError,
    >)
        ensures
            plain(r) == self@.scheduled(task_id, now),
    {
        let record = match self.tasks.get(&task_id.0) {
            Some(record) => record,
            None => {
                return Err(FabricError::UnknownTask(task_id));
            },
        };
        if !record.status.is_pending() {
            return Err(FabricError::TaskNotPending(task_id));
        }
        let idle = self.schedulable_resources(now);
        match self.scheduler.choose_placement(&record.spec, &idle, &self.objects, &self.topology) {
            Ok(decision) => Ok(decision),
            Err(error) => Err(FabricError::Scheduling(error)),
        }
    }

    /// Predicts how a logical job would run now.
    pub fn plan_logical_job(&self, spec: &LogicalJobSpec) -> (r: Result<CooperativePlan, PlanError>)
        ensures
            exists|now: u64|
                plain_plan(r) == crate::planner::planned(#[trigger] self@.context(now), spec@),
    {
        self.plan_logical_job_at(spec, now_unix_ms())
    }

    /// Predicts how a logical job would run at a given time.
    pub fn plan_logical_job_at(&self, spec: &LogicalJobSpec, now: u64) -> (r: Result<
        CooperativePlan,
        PlanError,
    >)
        ensures
            plain_plan(r) == crate::planner::planned(self@.context(now), spec@),
    {
        let idle = self.schedulable_resources(now);
        plan(spec, &self.scheduler, &idle, &self.objects, &self.topology)
    }

    /// Starts a pending task on an active resource.
    pub fn begin_execution(&mut self, task_id: TaskId, resource_id: ResourceId) -> (r: Result<
        ExecutionLease,
        FabricError,
    >)
        requires
            old(self)@.wf(),
        ensures
            exists|now: u64, execution_id: ExecutionId|
                {
                    let outcome = #[trigger] old(self)@.begun(task_id, resource_id, now, execution_id);
                    final(self)@ == outcome.state && plain(r) == outcome.answer
                },
            final(self)@.wf(),
    {
        self.begin_execution_at(task_id, resource_id, now_unix_ms(), ExecutionId::new())
    }

    /// Starts a pending task at a given time, as an execution of a given identity.
    pub fn begin_execution_at(
        &mut self,
        task_id: TaskId,
        resource_id: ResourceId,
        now: u64,
        execution_id: ExecutionId,
    ) -> (r: Result<ExecutionLease, FabricError>)
        requires
            old(self)@.wf(),
        ensures
            ({
                let outcome = old(self)@.begun(task_id, resource_id, now, execution_id);
                final(self)@ == outcome.state && plain(r) == outcome.answer
            }),
            final(self)@.wf(),
    {
        let resource_epoch: u64 = match self.resource_epoch_at(resource_id, now) {
            Some(epoch) => epoch,
            None => {
                return Err(FabricError::ResourceNotActive(resource_id));
            },
        };
        match self.tasks.get(&task_id.0) {
            None => {
                return Err(FabricError::UnknownTask(task_id));
            },
            Some(record) => {
                if !record.status.is_pending() {
                    return Err(FabricError::TaskNotPending(task_id));
                }
            },
        }
        let lease = ExecutionLease {
            task_id,
            execution_id,
            resource_id,
            resource_epoch,
            expires_at_unix_ms: now.saturating_add(self.execution_ttl_ms),
        };
        self.set_status(task_id.0, TaskStatus::Running(lease));
        Ok(lease)
    }

    /// Puts a known task into a state.
    fn set_status(&mut self, task: u128, status: TaskStatus)
        requires
            old(self)@.wf(),
            old(self)@.tasks.contains_key(task),
            status@ matches TaskStatusModel::Running(lease) ==> lease.task_id.0 == task && old(
                self,
            )@.issued(lease),
        ensures
            final(self)@ == old(self)@.with_status(task, status@),
            final(self)@.wf(),
    {
        let ghost model = self@;
        proof {
            crate::fabric_model::lemma_wf_tasks(model, model.with_status(task, status@).tasks);
        }
        if let Some(record) = self.tasks.remove(&task) {
            self.tasks.insert(task, TaskRecord { spec: record.spec, status });
        }
        assert(self@ =~= model.with_status(task, status@));
    }

    /// Why a lease does not own its task now.
    fn check_lease(&self, lease: &ExecutionLease, now: u64) -> (r: Result<ExecutionLease, FabricError>)
        ensures
            match r {
                Ok(current) => self@.lease_error(*lease, now) is None
                    && self@.tasks[lease.task_id.0].status == TaskStatusModel::Running(current),
                Err(error) => self@.lease_error(*lease, now) == Some(error@),
            },
    {
        match self.resource_epoch_at(lease.resource_id, now) {
            None => {
                return Err(FabricError::ResourceNotActive(lease.resource_id));
            },
            Some(epoch) => {
                if epoch != lease.resource_epoch {
                    return Err(FabricError::StaleResourceEpoch(lease.resource_id));
                }
            },
        }
        let record = match self.tasks.get(&lease.task_id.0) {
            Some(record) => record,
            None => {
                return Err(FabricError::UnknownTask(lease.task_id));
            },
        };
        match &record.status {
            TaskStatus::Running(current) => {
                if current.execution_id != lease.execution_id {
                    return Err(FabricError::StaleExecution);
                }
                if current.expires_at_unix_ms <= now {
                    return Err(FabricError::ExecutionExpired);
                }
                if current.resource_id != lease.resource_id || current.resource_epoch
                    != lease.resource_epoch {
                    return Err(FabricError::StaleExecution);
                }
                Ok(*current)
            },
            _ => Err(FabricError::StaleExecution),
        }
    }

    /// Extends the lease of a running execution.
    pub fn renew_execution(&mut self, lease: &ExecutionLease) -> (r: Result<ExecutionLease, FabricError>)
        requires
            old(self)@.wf(),
        ensures
            exists|now: u64|
                {
                    let outcome = #[trigger] old(self)@.renewed(*lease, now);
                    final(self)@ == outcome.state && plain(r) == outcome.answer
                },
            final(self)@.wf(),
    {
        self.renew_execution_at(lease, now_unix_ms())
    }

    /// Extends the lease of a running execution at a given time.
    pub fn renew_execution_at(&mut self, lease: &ExecutionLease, now: u64) -> (r: Result<
        ExecutionLease,
        FabricError,
    >)
        requires
            old(self)@.wf(),
        ensures
            ({
                let outcome = old(self)@.renewed(*lease, now);
                final(self)@ == outcome.state && plain(r) == outcome.answer
            }),
            final(self)@.wf(),
    {
        let current = match self.check_lease(lease, now) {
            Ok(current) => current,
            Err(error) => {
                return Err(error);
            },
        };
        let renewed = ExecutionLease {
            task_id: current.task_id,
            execution_id: current.execution_id,
            resource_id: current.resource_id,
            resource_epoch: current.resource_epoch,
            expires_at_unix_ms: now.saturating_add(self.execution_ttl_ms),
        };
        assert(self@.tasks.contains_key(lease.task_id.0));
        self.set_status(lease.task_id.0, TaskStatus::Running(renewed));
        Ok(renewed)
    }
}

/// A plan or an error as plain values.
pub open spec fn plain_plan(r: Result<CooperativePlan, PlanError>) -> Result<PlanModel, PlanErrorModel> {
    match r {
        Ok(plan) => Ok(plan@),
        Err(error) => Err(error@),
    }
}

/// A role that can be worked on now.
enum ReadyRole {
    Cooperative { fixed: CooperativeRoleSpec, inputs: Vec<ObjectId> },
    Logical { role: LogicalRoleSpec, inputs: Vec<ObjectId>, chain: Vec<LogicalRoleSpec> },
    Reduction { name: String, reduction: RoleReductionSpec, objects: Vec<ObjectId> },
}

impl View for ReadyRole {
    type V = ReadyModel;

    closed spec fn view(&self) -> ReadyModel {
        match self {
            ReadyRole::Cooperative { fixed, inputs } => ReadyModel::Cooperative {
                name: fixed@.name,
                task: fixed@.task,
                inputs: inputs@,
            },
            ReadyRole::Logical { role, inputs, chain } => ReadyModel::Logical {
                role: role@,
                inputs: inputs@,
                chain: crate::text::views(chain@),
            },
            ReadyRole::Reduction { name, reduction, objects } => ReadyModel::Reduction {
                name: name@,
                reduction: reduction@,
                objects: objects@,
            },
        }
    }
}

/// Outputs that are not all there stay incomplete, whatever follows.
proof fn lemma_outputs_stay_incomplete(
    statuses: Map<Seq<char>, RoleStatusModel>,
    dependencies: Seq<Seq<char>>,
    i: nat,
    k: nat,
)
    requires
        crate::fabric_model::outputs_of(statuses, dependencies, i) is None,
        i <= k,
    ensures
        crate::fabric_model::outputs_of(statuses, dependencies, k) is None,
    decreases k - i,
{
    if i < k {
        lemma_outputs_stay_incomplete(statuses, dependencies, i, (k - 1) as nat);
    }
}

/// The outputs of the dependencies of a role in order, if all of them are complete.
pub fn dependency_outputs(statuses: &NameMap<CooperativeRoleStatus>, dependencies: &Vec<String>) -> (r: Option<
    Vec<ObjectId>,
>)
    ensures
        crate::text::view_of(r) == crate::fabric_model::outputs_of(
            crate::collections::name_views(statuses@),
            crate::text::views(dependencies@),
            dependencies@.len(),
        ),
{
    let ghost model = crate::collections::name_views(statuses@);
    let ghost names = crate::text::views(dependencies@);
    let mut inputs: Vec<ObjectId> = Vec::new();
    let mut k: usize = 0;
    while k < dependencies.len()
        invariant
            k <= dependencies@.len(),
            model == crate::collections::name_views(statuses@),
            names == crate::text::views(dependencies@),
            crate::fabric_model::outputs_of(model, names, k as nat) == Some(inputs@),
        decreases dependencies@.len() - k,
    {
        assert(names[k as int] == dependencies@[k as int]@);
        match statuses.get(dependencies[k].as_str()) {
            Some(CooperativeRoleStatus::Completed(outputs)) => {
                assert(model[names[k as int]] == RoleStatusModel::Completed(outputs@));
                extend_objects(&mut inputs, outputs);
            },
            other => {
                proof {
                    assert(crate::fabric_model::outputs_of(model, names, (k + 1) as nat) is None);
                    lemma_outputs_stay_incomplete(model, names, (k + 1) as nat, names.len());
                }
                return None;
            },
        }
        k = k + 1;
    }
    Some(inputs)
}

fn find_consumer(roles: &Vec<LogicalRoleSpec>, name: &str, from: usize) -> (r: Option<usize>)
    requires
        from <= roles@.len(),
    ensures
        match r {
            Some(i) => i < roles@.len() && crate::fabric_model::consumer_from(
                crate::text::views(roles@),
                name@,
                from as int,
            ) == Some(i as int),
            None => crate::fabric_model::consumer_from(
                crate::text::views(roles@),
                name@,
                from as int,
            ) is None,
        },
{
    let ghost model = crate::text::views(roles@);
    let mut i: usize = from;
    while i < roles.len()
        invariant
            from <= i <= roles@.len(),
            model == crate::text::views(roles@),
            crate::fabric_model::consumer_from(model, name@, from as int)
                == crate::fabric_model::consumer_from(model, name@, i as int),
        decreases roles@.len() - i,
    {
        assert(model[i as int] == roles@[i as int]@);
        if holds_text(&roles[i].depends_on, name) {
            return Some(i);
        }
        i = i + 1;
    }
    None
}

fn find_next_in_chain(
    spec: &LogicalJobSpec,
    statuses: &NameMap<CooperativeRoleStatus>,
    last: &LogicalRoleSpec,
) -> (r: Option<usize>)
    ensures
        match r {
            Some(i) => i < spec.roles@.len() && crate::fabric_model::next_in_chain(
                spec@,
                crate::collections::name_views(statuses@),
                last@,
            ) == Some(i as int),
            None => crate::fabric_model::next_in_chain(
                spec@,
                crate::collections::name_views(statuses@),
                last@,
            ) is None,
        },
{
    let name = last.name.as_str();
    if holds_text(&spec.outputs, name) {
        return None;
    }
    let i: usize = match find_consumer(&spec.roles, name, 0) {
        Some(i) => i,
        None => {
            return None;
        },
    };
    let count: usize = spec.roles.len();
    assert(i < count);
    if find_consumer(&spec.roles, name, i + 1).is_some() {
        return None;
    }
    let consumer = &spec.roles[i];
    assert(spec@.roles[i as int] == consumer@);
    let mut only: Vec<String> = Vec::new();
    only.push(last.name.clone());
    assert(crate::text::views(only@) =~= seq![last@.name]);
    if !same_texts(&consumer.depends_on, &only) || !consumer.shards.is_single() {
        return None;
    }
    match statuses.get(consumer.name.as_str()) {
        Some(CooperativeRoleStatus::Waiting) => Some(i),
        _ => None,
    }
}

/// The longest safe chain that begins with a role.
pub fn fusion_chain(
    spec: &LogicalJobSpec,
    statuses: &NameMap<CooperativeRoleStatus>,
    first: &LogicalRoleSpec,
) -> (r: Vec<LogicalRoleSpec>)
    ensures
        crate::text::views(r@) == crate::fabric_model::chain_from(
            spec@,
            crate::collections::name_views(statuses@),
            seq![first@],
            spec@.roles.len(),
        ),
{
    let ghost model = crate::collections::name_views(statuses@);
    let mut chain: Vec<LogicalRoleSpec> = Vec::new();
    chain.push(first.clone());
    assert(crate::text::views(chain@) =~= seq![first@]);
    let ghost start = crate::text::views(chain@);
    let mut limit: usize = spec.roles.len();
    while limit > 0
        invariant
            chain@.len() > 0,
            model == crate::collections::name_views(statuses@),
            crate::fabric_model::chain_from(spec@, model, start, spec@.roles.len())
                == crate::fabric_model::chain_from(
                spec@,
                model,
                crate::text::views(chain@),
                limit as nat,
            ),
        ensures
            crate::fabric_model::chain_from(spec@, model, start, spec@.roles.len())
                == crate::text::views(chain@),
        decreases limit,
    {
        let last = &chain[chain.len() - 1];
        assert(crate::text::views(chain@).last() == last@);
        match find_next_in_chain(spec, statuses, last) {
            Some(i) => {
                let ghost before = crate::text::views(chain@);
                let next = spec.roles[i].clone();
                assert(spec@.roles[i as int] == next@);
                chain.push(next);
                assert(crate::text::views(chain@) =~= before.push(next@));
            },
            None => {
                break;
            },
        }
        limit = limit - 1;
    }
    chain
}

fn find_ready_cooperative(spec: &CooperativeJobSpec, statuses: &NameMap<CooperativeRoleStatus>) -> (r: Vec<
    ReadyRole,
>)
    ensures
        crate::text::views(r@) == crate::fabric_model::ready_cooperative(
            spec@.roles,
            crate::collections::name_views(statuses@),
            0,
        ),
{
    let ghost model = crate::collections::name_views(statuses@);
    let ghost roles = spec@.roles;
    let mut ready: Vec<ReadyRole> = Vec::new();
    let mut i: usize = 0;
    assert(crate::text::views(ready@) =~= Seq::<ReadyModel>::empty());
    while i < spec.roles.len()
        invariant
            i <= spec.roles@.len(),
            model == crate::collections::name_views(statuses@),
            roles == spec@.roles,
            crate::fabric_model::ready_cooperative(roles, model, 0) == crate::text::views(ready@)
                + crate::fabric_model::ready_cooperative(roles, model, i as int),
        decreases spec.roles@.len() - i,
    {
        let role = &spec.roles[i];
        assert(roles[i as int] == role@);
        let ghost before = crate::text::views(ready@);
        let ghost rest = crate::fabric_model::ready_cooperative(roles, model, i + 1);
        if let Some(CooperativeRoleStatus::Waiting) = statuses.get(role.name.as_str()) {
            if let Some(inputs) = dependency_outputs(statuses, &role.depends_on) {
                let one = ReadyRole::Cooperative { fixed: role.clone(), inputs };
                let ghost shown = one@;
                ready.push(one);
                assert(crate::text::views(ready@) =~= before.push(shown));
                assert(before + (seq![shown] + rest) =~= before.push(shown) + rest);
            }
        }
        i = i + 1;
    }
    assert(crate::text::views(ready@) + Seq::<ReadyModel>::empty() =~= crate::text::views(ready@));
    ready
}

fn find_ready_logical(spec: &LogicalJobSpec, statuses: &NameMap<CooperativeRoleStatus>) -> (r: Vec<ReadyRole>)
    ensures
        crate::text::views(r@) == crate::fabric_model::ready_logical(
            spec@,
            crate::collections::name_views(statuses@),
            0,
        ),
{
    let ghost model = crate::collections::name_views(statuses@);
    let mut ready: Vec<ReadyRole> = Vec::new();
    let mut i: usize = 0;
    assert(crate::text::views(ready@) =~= Seq::<ReadyModel>::empty());
    while i < spec.roles.len()
        invariant
            i <= spec.roles@.len(),
            model == crate::collections::name_views(statuses@),
            crate::fabric_model::ready_logical(spec@, model, 0) == crate::text::views(ready@)
                + crate::fabric_model::ready_logical(spec@, model, i as int),
        decreases spec.roles@.len() - i,
    {
        let role = &spec.roles[i];
        assert(spec@.roles[i as int] == role@);
        let ghost before = crate::text::views(ready@);
        let ghost rest = crate::fabric_model::ready_logical(spec@, model, i + 1);
        let open = match statuses.get(role.name.as_str()) {
            Some(CooperativeRoleStatus::Waiting) => true,
            Some(CooperativeRoleStatus::Ready) => true,
            _ => false,
        };
        if open {
            if let Some(inputs) = dependency_outputs(statuses, &role.depends_on) {
                let chain = fusion_chain(spec, statuses, role);
                let one = ReadyRole::Logical { role: role.clone(), inputs, chain };
                let ghost shown = one@;
                ready.push(one);
                assert(crate::text::views(ready@) =~= before.push(shown));
                assert(before + (seq![shown] + rest) =~= before.push(shown) + rest);
            }
        } else if let Some(reduction) = &role.reduction {
            if let Some(CooperativeRoleStatus::Reducible(objects)) = statuses.get(role.name.as_str()) {
                let one = ReadyRole::Reduction {
                    name: role.name.clone(),
                    reduction: reduction.clone(),
                    objects: objects.clone(),
                };
                let ghost shown = one@;
                ready.push(one);
                assert(crate::text::views(ready@) =~= before.push(shown));
                assert(before + (seq![shown] + rest) =~= before.push(shown) + rest);
            }
        }
        i = i + 1;
    }
    assert(crate::text::views(ready@) + Seq::<ReadyModel>::empty() =~= crate::text::views(ready@));
    ready
}

fn find_ready_roles(job: &CooperativeJobRecord) -> (r: Vec<ReadyRole>)
    ensures
        crate::text::views(r@) == crate::fabric_model::ready_roles(job@),
{
    match &job.definition {
        JobDefinition::Cooperative(spec) => find_ready_cooperative(spec, &job.roles),
        JobDefinition::Logical(spec) => find_ready_logical(spec, &job.roles),
    }
}

/// The identities of the tasks of some selections.
spec fn task_ids_of(selections: Seq<ReadyShardSelection>) -> Seq<TaskId> {
    Seq::new(selections.len(), |i: int| selections[i].task.id)
}

fn record_stages(job: &mut CooperativeJobRecord, names: &Vec<String>, selected: &ReadyFusionSelection)
    requires
        names@.len() == selected.implementations@.len(),
    ensures
        final(job)@ == old(job)@.with_stages(
            crate::text::views(names@),
            selected@,
            names@.len(),
        ),
{
    let ghost start = job@;
    let ghost chain = crate::text::views(names@);
    let mut k: usize = 0;
    while k < names.len()
        invariant
            k <= names@.len() == selected.implementations@.len(),
            chain == crate::text::views(names@),
            job@ == start.with_stages(chain, selected@, k as nat),
        decreases names@.len() - k,
    {
        let chain_roles = names.clone();
        assert(crate::text::views(chain_roles@) =~= chain);
        assert(chain[k as int] == names@[k as int]@);
        assert(selected@.implementations[k as int] == selected.implementations@[k as int]@);
        job.roles.insert(names[k].clone(), CooperativeRoleStatus::Submitted(selected.task.id));
        job.selections.insert(
            names[k].clone(),
            RoleSelection {
                implementation: selected.implementations[k].clone(),
                planned_resource: selected.resource_id,
                estimated_total_ms: selected.cost.total_ms,
                fusion: Some(
                    RoleFusionView {
                        chain_roles,
                        stage_index: k,
                        estimated_avoided_transfer_ms: selected.estimated_avoided_transfer_ms,
                        estimated_vs_separate_ms: selected.estimated_vs_separate_ms,
                    },
                ),
            },
        );
        assert(job@ =~= start.with_stages(chain, selected@, (k + 1) as nat));
        k = k + 1;
    }
}

impl Fabric {
    /// Puts the record of a known job in place of another.
    fn put_job(&mut self, job_id: JobId, job: CooperativeJobRecord)
        ensures
            final(self)@ == old(self)@.with_job(job_id, job@),
    {
        self.jobs.insert(job_id.0, job);
        assert(self@ =~= old(self)@.with_job(job_id, job@));
    }

    fn bind(&mut self, task_id: TaskId, binding: TaskRoleBinding)
        ensures
            final(self)@ == old(self)@.bound(task_id, binding@),
    {
        self.task_roles.insert(task_id.0, binding);
        assert(self@ =~= old(self)@.bound(task_id, binding@));
    }

    /// Submits the task of a role, and records that it does.
    fn attach(
        &mut self,
        job_id: JobId,
        name: &String,
        task: TaskSpec,
        selection: Option<RoleSelection>,
    ) -> (r: Result<(), FabricError>)
        requires
            old(self)@.wf(),
            old(self)@.jobs.contains_key(job_id.0),
            old(self)@.jobs[job_id.0].roles.contains_key(name@),
        ensures
            ({
                let outcome = old(self)@.attached(
                    job_id,
                    name@,
                    task@,
                    crate::text::view_of(selection),
                );
                final(self)@ == outcome.state && plain(r) == outcome.answer
            }),
            final(self)@.wf(),
    {
        let ghost model = self@;
        proof {
            crate::fabric_model::lemma_wf_attached(
                model,
                job_id,
                name@,
                task@,
                crate::text::view_of(selection),
            );
        }
        let task_id = task.id;
        if let Err(error) = self.submit(task) {
            return Err(error);
        }
        self.bind(task_id, TaskRoleBinding::Single { job_id, role_name: name.clone() });
        if let Some(job) = self.jobs.remove(&job_id.0) {
            let mut job = job;
            job.roles.insert(name.clone(), CooperativeRoleStatus::Submitted(task_id));
            if let Some(selection) = selection {
                job.selections.insert(name.clone(), selection);
            }
            self.put_job(job_id, job);
        }
        assert(self@ =~= model.attached(
            job_id,
            name@,
            task@,
            crate::text::view_of(selection),
        ).state);
        Ok(())
    }

    /// Submits the fused task of the first roles of a chain, and records that it does.
    fn attach_fused(&mut self, job_id: JobId, names: Vec<String>, selected: ReadyFusionSelection) -> (r: Result<
        (),
        FabricError,
    >)
        requires
            old(self)@.wf(),
            old(self)@.jobs.contains_key(job_id.0),
            names@.len() > 0,
            names@.len() == selected.implementations@.len(),
            forall|i: int|
                0 <= i < names@.len() ==> old(self)@.jobs[job_id.0].roles.contains_key(
                    #[trigger] crate::text::views(names@)[i],
                ),
        ensures
            ({
                let outcome = old(self)@.attached_fused(
                    job_id,
                    crate::text::views(names@),
                    selected@,
                );
                final(self)@ == outcome.state && plain(r) == outcome.answer
            }),
            final(self)@.wf(),
    {
        let ghost model = self@;
        let ghost chain = crate::text::views(names@);
        proof {
            crate::fabric_model::lemma_wf_attached_fused(model, job_id, chain, selected@);
        }
        let task_id = selected.task.id;
        if let Err(error) = self.submit(selected.task.clone()) {
            return Err(error);
        }
        let role_names = names.clone();
        assert(crate::text::views(role_names@) =~= chain);
        self.bind(task_id, TaskRoleBinding::FusedChain { job_id, role_names });
        if let Some(job) = self.jobs.remove(&job_id.0) {
            let mut job = job;
            record_stages(&mut job, &names, &selected);
            self.put_job(job_id, job);
        }
        assert(self@ =~= model.attached_fused(job_id, chain, selected@).state);
        Ok(())
    }

    /// Submits the tasks of a sharded role, and records that it does.
    fn attach_shards(&mut self, job_id: JobId, name: &String, selections: &Vec<ReadyShardSelection>) -> (r: Result<
        (),
        FabricError,
    >)
        requires
            old(self)@.wf(),
            old(self)@.jobs.contains_key(job_id.0),
            old(self)@.jobs[job_id.0].roles.contains_key(name@),
        ensures
            ({
                let outcome = old(self)@.attached_shards(
                    job_id,
                    name@,
                    crate::text::views(selections@),
                );
                final(self)@ == outcome.state && plain(r) == outcome.answer
            }),
            final(self)@.wf(),
    {
        let ghost model = self@;
        let ghost choices = crate::text::views(selections@);
        proof {
            crate::fabric_model::lemma_wf_attached_shards(model, job_id, name@, choices);
        }
        let mut statuses: Vec<ShardStatus> = Vec::new();
        let mut shards: Vec<RoleShardView> = Vec::new();
        let mut k: usize = 0;
        while k < selections.len()
            invariant
                k <= selections@.len(),
                choices == crate::text::views(selections@),
                self@.wf(),
                self@.jobs == model.jobs,
                model.jobs.contains_key(job_id.0),
                model.jobs[job_id.0].roles.contains_key(name@),
                model.wf(),
                model == old(self)@,
                model.attached_shards(job_id, name@, choices).state.wf(),
                model.shards_submitted(job_id, name@, choices, 0) == self@.shards_submitted(
                    job_id,
                    name@,
                    choices,
                    k as int,
                ),
                statuses@.len() == k,
                shards@.len() == k,
                forall|j: int|
                    0 <= j < k ==> (#[trigger] statuses@[j])@
                        == crate::fabric_model::shard_statuses(choices)[j],
                forall|j: int|
                    0 <= j < k ==> (#[trigger] shards@[j])@ == crate::fabric_model::shard_views(choices)[j],
            decreases selections@.len() - k,
        {
            let selection = &selections[k];
            assert(choices[k as int] == selection@);
            let task_id = selection.task.id;
            let ghost before = self@;
            proof {
                crate::fabric_model::lemma_wf_submitted(before, selection@.task);
            }
            if let Err(error) = self.submit(selection.task.clone()) {
                return Err(error);
            }
            proof {
                crate::fabric_model::lemma_wf_bound(
                    self@,
                    task_id,
                    BindingModel::Shard { job_id, role_name: name@, index: k },
                );
            }
            self.bind(
                task_id,
                TaskRoleBinding::Shard { job_id, role_name: name.clone(), index: k },
            );
            statuses.push(ShardStatus { task_id, outputs: None });
            let partition = match &selection.task.shard {
                Some(shard) => shard.partition,
                None => None,
            };
            shards.push(
                RoleShardView {
                    index: selection.index,
                    task_id,
                    implementation: selection.implementation.clone(),
                    planned_resource: selection.resource_id,
                    estimated_total_ms: selection.cost.total_ms,
                    partition,
                },
            );
            k = k + 1;
        }
        assert(crate::text::views(statuses@) =~= crate::fabric_model::shard_statuses(choices));
        assert(crate::text::views(shards@) =~= crate::fabric_model::shard_views(choices));
        if let Some(job) = self.jobs.remove(&job_id.0) {
            let mut job = job;
            job.roles.insert(name.clone(), CooperativeRoleStatus::Sharded(statuses));
            job.shards.insert(name.clone(), RoleShards { shards });
            self.put_job(job_id, job);
        }
        assert(self@ =~= model.attached_shards(job_id, name@, choices).state);
        Ok(())
    }

    /// Submits the reducers of the next level of a reduction, and records that it does. The identities
    /// of the reducers are random.
    fn attach_level(&mut self, job_id: JobId, name: &String, task: &TaskTemplate, groups: &Vec<Vec<ObjectId>>) -> (r:
        (Result<(), FabricError>, Ghost<Seq<TaskId>>))
        requires
            old(self)@.wf(),
            old(self)@.jobs.contains_key(job_id.0),
            old(self)@.jobs[job_id.0].roles.contains_key(name@),
        ensures
            ({
                let outcome = old(self)@.attached_level(
                    job_id,
                    name@,
                    task@,
                    crate::text::views(groups@),
                    r.1@,
                );
                final(self)@ == outcome.state && plain(r.0) == outcome.answer
            }),
            final(self)@.wf(),
    {
        let ghost model = self@;
        let ghost all = crate::text::views(groups@);
        let ids = fresh_task_ids(groups.len());
        proof {
            crate::fabric_model::lemma_wf_attached_level(model, job_id, name@, task@, all, ids@);
        }
        let mut statuses: Vec<ReductionStatus> = Vec::new();
        let mut k: usize = 0;
        while k < groups.len()
            invariant
                k <= groups@.len() == ids@.len(),
                all == crate::text::views(groups@),
                self@.wf(),
                self@.jobs == model.jobs,
                model.jobs.contains_key(job_id.0),
                model.jobs[job_id.0].roles.contains_key(name@),
                model.wf(),
                model == old(self)@,
                model.attached_level(job_id, name@, task@, all, ids@).state.wf(),
                model.reducers_submitted(job_id, name@, task@, all, ids@, 0) == self@.reducers_submitted(
                    job_id,
                    name@,
                    task@,
                    all,
                    ids@,
                    k as int,
                ),
                statuses@.len() == k,
                forall|j: int|
                    0 <= j < k ==> (#[trigger] statuses@[j])@
                        == crate::fabric_model::level_statuses(all, ids@)[j],
            decreases groups@.len() - k,
        {
            let group = &groups[k];
            assert(all[k as int] == group@);
            if group.len() > 1 {
                let reducer = task.instantiate_as(group, ids[k]);
                proof {
                    crate::fabric_model::lemma_wf_submitted(self@, reducer@);
                }
                if let Err(error) = self.submit(reducer) {
                    return (Err(error), Ghost(ids@));
                }
                proof {
                    crate::fabric_model::lemma_wf_bound(
                        self@,
                        ids[k as int],
                        BindingModel::Reducer { job_id, role_name: name@, index: k },
                    );
                }
                self.bind(
                    ids[k],
                    TaskRoleBinding::Reducer { job_id, role_name: name.clone(), index: k },
                );
                statuses.push(
                    ReductionStatus {
                        inputs: group.clone(),
                        task_id: Some(ids[k]),
                        outputs: None,
                    },
                );
            } else {
                statuses.push(
                    ReductionStatus {
                        inputs: group.clone(),
                        task_id: None,
                        outputs: Some(group.clone()),
                    },
                );
            }
            k = k + 1;
        }
        assert(crate::text::views(statuses@) =~= crate::fabric_model::level_statuses(all, ids@));
        if let Some(job) = self.jobs.remove(&job_id.0) {
            let mut job = job;
            job.roles.insert(name.clone(), CooperativeRoleStatus::Reducing(statuses));
            self.put_job(job_id, job);
        }
        assert(self@ =~= model.attached_level(job_id, name@, task@, all, ids@).state);
        (Ok(()), Ghost(ids@))
    }

    /// Records that nothing can run a role now.
    fn postpone(&mut self, job_id: JobId, name: &String)
        requires
            old(self)@.wf(),
            old(self)@.jobs.contains_key(job_id.0),
        ensures
            final(self)@ == old(self)@.with_job(
                job_id,
                old(self)@.jobs[job_id.0].with_role(name@, RoleStatusModel::Ready),
            ),
            final(self)@.wf(),
    {
        let ghost model = self@;
        proof {
            crate::fabric_model::lemma_wf_with_job(
                model,
                job_id,
                model.jobs[job_id.0].with_role(name@, RoleStatusModel::Ready),
            );
        }
        if let Some(job) = self.jobs.remove(&job_id.0) {
            let mut job = job;
            job.roles.insert(name.clone(), CooperativeRoleStatus::Ready);
            self.put_job(job_id, job);
        }
        assert(self@ =~= model.with_job(
            job_id,
            model.jobs[job_id.0].with_role(name@, RoleStatusModel::Ready),
        ));
    }
}

/// Random identities.
fn fresh_task_ids(count: usize) -> (r: Vec<TaskId>)
    ensures
        r@.len() == count,
{
    let mut ids: Vec<TaskId> = Vec::new();
    while ids.len() < count
        invariant
            ids@.len() <= count,
        decreases count - ids@.len(),
    {
        ids.push(TaskId::new());
    }
    ids
}

fn chain_names(chain: &Vec<LogicalRoleSpec>, n: usize) -> (r: Vec<String>)
    requires
        n <= chain@.len(),
    ensures
        crate::text::views(r@) == crate::fabric_model::names_of(
            crate::text::views(chain@),
            n as nat,
        ),
{
    let ghost model = crate::text::views(chain@);
    let mut names: Vec<String> = Vec::new();
    let mut i: usize = 0;
    while i < n
        invariant
            i <= n <= chain@.len(),
            model == crate::text::views(chain@),
            names@.len() == i,
            forall|j: int| 0 <= j < i ==> (#[trigger] names@[j])@ == model[j].name,
        decreases n - i,
    {
        assert(model[i as int] == chain@[i as int]@);
        names.push(chain[i].name.clone());
        i = i + 1;
    }
    assert(crate::text::views(names@) =~= crate::fabric_model::names_of(model, n as nat));
    names
}

impl Fabric {
    /// Turns a ready role into tasks under random identities.
    fn materialize_role(&mut self, job_id: JobId, ready: &ReadyRole, now: u64) -> (r: (
        Result<(), FabricError>,
        Ghost<Seq<TaskId>>,
    ))
        requires
            old(self)@.wf(),
            crate::fabric_model::placeable(old(self)@, job_id, ready@),
        ensures
            ({
                let outcome = old(self)@.materialized_role(job_id, ready@, now, r.1@);
                final(self)@ == outcome.state && plain(r.0) == outcome.answer
            }),
            final(self)@.wf(),
            crate::fabric_model::keeps_job(old(self)@, final(self)@, job_id),
    {
        proof {
            reveal(FabricModel::materialized_role);
        }
        let ghost model = self@;
        match ready {
            ReadyRole::Cooperative { fixed, inputs } => {
                let task = fixed.task.instantiate(inputs);
                let ghost ids = seq![task.id];
                proof {
                    crate::fabric_model::lemma_wf_materialized_role(
                        model,
                        job_id,
                        ready@,
                        now,
                        ids,
                    );
                }
                let r = self.attach(job_id, &fixed.name, task, None);
                (r, Ghost(ids))
            },
            ReadyRole::Reduction { name, reduction, objects } => {
                if reduction.max_fan_in == 0 {
                    return (Ok(()), Ghost(Seq::empty()));
                }
                let groups = group_objects(&self.objects, &self.topology, reduction, objects);
                let r = self.attach_level(job_id, name, &reduction.task, &groups);
                proof {
                    crate::fabric_model::lemma_wf_materialized_role(
                        model,
                        job_id,
                        ready@,
                        now,
                        r.1@,
                    );
                }
                r
            },
            ReadyRole::Logical { role, inputs, chain } => {
                let resources = self.schedulable_resources(now);
                if !role.shards.is_single() {
                    let context = ShardPlanningContext {
                        scheduler: &self.scheduler,
                        resources: &resources,
                        objects: &self.objects,
                        topology: &self.topology,
                    };
                    assert(context@ == model.context(now));
                    match select_ready_shards(role, inputs, &context) {
                        Some(selections) => {
                            let ghost ids = task_ids_of(selections@);
                            let ghost found = crate::shards::role_shards(
                                model.context(now),
                                role@,
                                inputs@,
                                Binary64 { bits: 0 },
                                Map::<u128, Binary64>::empty(),
                            );
                            proof {
                                crate::fabric_model::lemma_wf_materialized_role(
                                    model,
                                    job_id,
                                    ready@,
                                    now,
                                    ids,
                                );
                                assert(crate::text::views(selections@)
                                    =~= crate::fabric_model::named_choices(
                                    found.unwrap().choices,
                                    ids,
                                ));
                            }
                            let r = self.attach_shards(job_id, &role.name, &selections);
                            (r, Ghost(ids))
                        },
                        None => {
                            let ghost ids = Seq::<TaskId>::empty();
                            proof {
                                crate::fabric_model::lemma_wf_materialized_role(
                                    model,
                                    job_id,
                                    ready@,
                                    now,
                                    ids,
                                );
                            }
                            self.postpone(job_id, &role.name);
                            (Ok(()), Ghost(ids))
                        },
                    }
                } else {
                    let advisor = FusionAdvisor::default();
                    let context = FusionContext {
                        scheduler: &self.scheduler,
                        advisor: &advisor,
                        resources: &resources,
                        objects: &self.objects,
                        topology: &self.topology,
                    };
                    assert(context@.context == model.context(now));
                    proof {
                        crate::chains::law_fusion_is_sound(
                            context@,
                            crate::text::views(chain@),
                            inputs@,
                        );
                    }
                    if let Some(selected) = select_ready_fusion(chain, inputs, &context) {
                        let ghost ids = seq![selected.task.id];
                        proof {
                            crate::fabric_model::lemma_wf_materialized_role(
                                model,
                                job_id,
                                ready@,
                                now,
                                ids,
                            );
                        }
                        assert(selected@.implementations.len() == selected.implementations@.len());
                        let names = chain_names(chain, selected.implementations.len());
                        proof {
                            let all = crate::text::views(names@);
                            assert(all.len() == names@.len());
                            assert forall|i: int| 0 <= i < names@.len() implies model.jobs[job_id.0].roles.contains_key(
                                #[trigger] all[i],
                            ) by {
                                assert(all[i] == crate::text::views(chain@)[i].name);
                            }
                        }
                        let r = self.attach_fused(job_id, names, selected);
                        return (r, Ghost(ids));
                    }
                    let context = ShardPlanningContext {
                        scheduler: &self.scheduler,
                        resources: &resources,
                        objects: &self.objects,
                        topology: &self.topology,
                    };
                    assert(context@ == model.context(now));
                    match select_ready_role(role, inputs, &context) {
                        Some(selected) => {
                            let ghost ids = seq![selected.task.id];
                            proof {
                                crate::fabric_model::lemma_wf_materialized_role(
                                    model,
                                    job_id,
                                    ready@,
                                    now,
                                    ids,
                                );
                            }
                            let selection = RoleSelection {
                                implementation: selected.implementation,
                                planned_resource: selected.resource_id,
                                estimated_total_ms: selected.cost.total_ms,
                                fusion: None,
                            };
                            let r = self.attach(job_id, &role.name, selected.task, Some(selection));
                            (r, Ghost(ids))
                        },
                        None => {
                            let ghost ids = Seq::<TaskId>::empty();
                            proof {
                                crate::fabric_model::lemma_wf_materialized_role(
                                    model,
                                    job_id,
                                    ready@,
                                    now,
                                    ids,
                                );
                            }
                            self.postpone(job_id, &role.name);
                            (Ok(()), Ghost(ids))
                        },
                    }
                }
            },
        }
    }

    /// Turns the ready roles of a job into tasks under random identities. Doing so again at the same
    /// time adds no task and changes no role.
    pub fn materialize_ready_roles(&mut self, job_id: JobId, now: u64) -> (r: Result<(), FabricError>)
        requires
            old(self)@.wf(),
        ensures
            exists|ids: Seq<Seq<TaskId>>|
                {
                    let outcome = #[trigger] old(self)@.materialized(job_id, now, ids);
                    final(self)@ == outcome.state && plain(r) == outcome.answer
                },
            final(self)@.wf(),
            r is Ok ==> forall|more: Seq<Seq<TaskId>>| #[trigger]
                final(self)@.materialized(job_id, now, more) == (Outcome::<()> {
                    state: final(self)@,
                    answer: Ok(()),
                }),
    {
        let ghost model = self@;
        let ready = match self.jobs.get(&job_id.0) {
            Some(job) => find_ready_roles(job),
            None => {
                proof {
                    let ids = Seq::<Seq<TaskId>>::empty();
                    assert(model.materialized(job_id, now, ids).state == model);
                }
                return Err(FabricError::UnknownJob(job_id));
            },
        };
        let ghost all = crate::text::views(ready@);
        proof {
            crate::fabric_model::lemma_ready_roles_placeable(model, job_id);
        }
        let ghost mut ids: Seq<Seq<TaskId>> = Seq::empty();
        let mut i: usize = 0;
        while i < ready.len()
            invariant
                i <= ready@.len(),
                all == crate::text::views(ready@),
                model == old(self)@,
                model.jobs.contains_key(job_id.0),
                all == crate::fabric_model::ready_roles(model.jobs[job_id.0]),
                self@.wf(),
                ids.len() == i,
                forall|k: int|
                    0 <= k < all.len() ==> crate::fabric_model::placeable(
                        self@,
                        job_id,
                        #[trigger] all[k],
                    ),
                forall|more: Seq<Seq<TaskId>>| #[trigger]
                    model.materialized_from(job_id, all, 0, now, ids + more)
                        == self@.materialized_from(job_id, all, i as int, now, ids + more),
            decreases ready@.len() - i,
        {
            let ghost before = self@;
            assert(all[i as int] == ready@[i as int]@);
            let (result, made) = self.materialize_role(job_id, &ready[i], now);
            let ghost earlier = ids;
            proof {
                ids = ids.push(made@);
                assert forall|more: Seq<Seq<TaskId>>| #[trigger]
                    model.materialized_from(job_id, all, 0, now, ids + more)
                    == before.materialized_from(job_id, all, i as int, now, ids + more) by {
                    assert(ids + more =~= earlier + (seq![made@] + more));
                }
                assert forall|more: Seq<Seq<TaskId>>| (ids + more)[i as int] == made@ by {}
            }
            if let Err(error) = result {
                proof {
                    let none = Seq::<Seq<TaskId>>::empty();
                    assert(ids + none =~= ids);
                    assert(model.materialized_from(job_id, all, 0, now, ids + none)
                        == before.materialized_from(job_id, all, i as int, now, ids + none));
                    assert(model.materialized(job_id, now, ids).state == self@);
                }
                return Err(error);
            }
            proof {
                assert forall|k: int| 0 <= k < all.len() implies crate::fabric_model::placeable(
                    self@,
                    job_id,
                    #[trigger] all[k],
                ) by {
                    crate::fabric_model::lemma_placeable_kept(before, self@, job_id, all[k]);
                }
            }
            i = i + 1;
        }
        proof {
            let none = Seq::<Seq<TaskId>>::empty();
            assert(ids + none =~= ids);
            assert(model.materialized_from(job_id, all, 0, now, ids + none)
                == self@.materialized_from(job_id, all, i as int, now, ids + none));
            assert(model.materialized(job_id, now, ids).state == self@);
            assert forall|more: Seq<Seq<TaskId>>| #[trigger]
                self@.materialized(job_id, now, more) == (Outcome::<()> {
                state: self@,
                answer: Ok(()),
            }) by {
                crate::materialization_laws::law_materializing_again_changes_nothing(
                    model,
                    job_id,
                    now,
                    ids,
                    more,
                );
            }
        }
        Ok(())
    }
}

/// A role of a job, with what it depends on.
struct JobRole {
    name: String,
    depends_on: Vec<String>,
}

impl View for JobRole {
    type V = NodeModel;

    closed spec fn view(&self) -> NodeModel {
        NodeModel { name: self.name@, depends_on: crate::text::views(self.depends_on@) }
    }
}

fn job_outputs(definition: &JobDefinition) -> (r: &Vec<String>)
    ensures
        crate::text::views(r@) == crate::fabric_model::outputs_declared(definition@),
{
    match definition {
        JobDefinition::Cooperative(spec) => &spec.outputs,
        JobDefinition::Logical(spec) => &spec.outputs,
    }
}

fn make_role(name: &String, depends_on: &Vec<String>) -> (r: JobRole)
    ensures
        r@ == (NodeModel { name: name@, depends_on: crate::text::views(depends_on@) }),
{
    let r = JobRole { name: name.clone(), depends_on: depends_on.clone() };
    assert(r@.depends_on =~= crate::text::views(depends_on@));
    r
}

fn job_roles(definition: &JobDefinition) -> (r: Vec<JobRole>)
    ensures
        crate::text::views(r@) == crate::fabric_model::role_graph_of(definition@),
{
    let mut roles: Vec<JobRole> = Vec::new();
    let mut i: usize = 0;
    match definition {
        JobDefinition::Cooperative(spec) => {
            let ghost graph = crate::validation::cooperative_graph(spec@.roles);
            while i < spec.roles.len()
                invariant
                    i <= spec.roles@.len(),
                    graph == crate::validation::cooperative_graph(spec@.roles),
                    roles@.len() == i,
                    forall|j: int| 0 <= j < i ==> (#[trigger] roles@[j])@ == graph[j],
                decreases spec.roles@.len() - i,
            {
                assert(spec@.roles[i as int] == spec.roles@[i as int]@);
                roles.push(make_role(&spec.roles[i].name, &spec.roles[i].depends_on));
                i = i + 1;
            }
            assert(crate::text::views(roles@) =~= graph);
        },
        JobDefinition::Logical(spec) => {
            let ghost graph = crate::validation::logical_graph(spec@.roles);
            while i < spec.roles.len()
                invariant
                    i <= spec.roles@.len(),
                    graph == crate::validation::logical_graph(spec@.roles),
                    roles@.len() == i,
                    forall|j: int| 0 <= j < i ==> (#[trigger] roles@[j])@ == graph[j],
                decreases spec.roles@.len() - i,
            {
                assert(spec@.roles[i as int] == spec.roles@[i as int]@);
                roles.push(make_role(&spec.roles[i].name, &spec.roles[i].depends_on));
                i = i + 1;
            }
            assert(crate::text::views(roles@) =~= graph);
        },
    }
    roles
}

/// The record of a job none of whose roles has started.
fn fresh_record(definition: JobDefinition) -> (r: CooperativeJobRecord)
    ensures
        r@ == crate::fabric_model::fresh_job(definition@),
{
    let roles = job_roles(&definition);
    let ghost graph = crate::text::views(roles@);
    let mut statuses: NameMap<CooperativeRoleStatus> = NameMap::new();
    let mut i: usize = 0;
    while i < roles.len()
        invariant
            i <= roles@.len(),
            graph == crate::text::views(roles@),
            forall|name: Seq<char>| #[trigger]
                statuses@.contains_key(name) <==> crate::role_graph::named_before(
                    graph,
                    i as int,
                    name,
                ),
            forall|name: Seq<char>| #[trigger]
                statuses@.contains_key(name) ==> statuses@[name]@ == RoleStatusModel::Waiting,
        decreases roles@.len() - i,
    {
        assert(graph[i as int] == roles@[i as int]@);
        let ghost before = statuses@;
        statuses.insert(roles[i].name.clone(), CooperativeRoleStatus::Waiting);
        proof {
            assert forall|name: Seq<char>| #[trigger] statuses@.contains_key(name)
                <==> crate::role_graph::named_before(graph, i + 1, name) by {
                if before.contains_key(name) {
                    let j = choose|j: int| 0 <= j < i && (#[trigger] graph[j]).name == name;
                    assert(graph[j].name == name);
                }
                if crate::role_graph::named_before(graph, i + 1, name) {
                    let j = choose|j: int| 0 <= j < i + 1 && (#[trigger] graph[j]).name == name;
                    if j < i {
                        assert(crate::role_graph::named_before(graph, i as int, name));
                    }
                }
                if name == graph[i as int].name {
                    assert(crate::role_graph::named_before(graph, i + 1, name));
                }
            }
        }
        i = i + 1;
    }
    let r = CooperativeJobRecord {
        definition,
        roles: statuses,
        selections: NameMap::new(),
        shards: NameMap::new(),
    };
    assert(r@.roles =~= crate::fabric_model::all_waiting(graph));
    assert(r@ =~= crate::fabric_model::fresh_job(definition@));
    r
}

impl Fabric {
    /// Accepts a job that was found valid.
    fn accept(&mut self, definition: JobDefinition, job_id: JobId, now: u64) -> (r: Result<JobId, FabricError>)
        requires
            old(self)@.wf(),
            job_id == crate::fabric_model::id_of(definition@),
            crate::fabric_model::sound_graph(definition@),
        ensures
            exists|ids: Seq<Seq<TaskId>>|
                {
                    let outcome = #[trigger] old(self)@.accepted(definition@, now, ids);
                    final(self)@ == outcome.state && plain(r) == outcome.answer
                },
            final(self)@.wf(),
    {
        let ghost model = self@;
        if self.jobs.contains_key(&job_id.0) {
            assert(model.accepted(definition@, now, Seq::empty()).state == model);
            return Err(FabricError::DuplicateJob(job_id));
        }
        proof {
            crate::fabric_model::lemma_wf_new_job(model, definition@);
        }
        let record = fresh_record(definition);
        self.put_job(job_id, record);
        let ghost held = self@;
        let result = self.materialize_ready_roles(job_id, now);
        proof {
            let ids = choose|ids: Seq<Seq<TaskId>>|
                {
                    let outcome = #[trigger] held.materialized(job_id, now, ids);
                    self@ == outcome.state && plain(result) == outcome.answer
                };
            assert(model.accepted(definition@, now, ids).state == self@);
        }
        match result {
            Ok(_) => Ok(job_id),
            Err(error) => Err(error),
        }
    }

    /// Accepts a job of fixed tasks.
    pub fn submit_cooperative(&mut self, job: CooperativeJobSpec) -> (r: Result<JobId, FabricError>)
        requires
            old(self)@.wf(),
        ensures
            exists|now: u64, ids: Seq<Seq<TaskId>>|
                {
                    let outcome = #[trigger] old(self)@.enlisted(JobModel::Cooperative(job@), now, ids);
                    final(self)@ == outcome.state && plain(r) == outcome.answer
                },
            final(self)@.wf(),
    {
        self.submit_cooperative_at(job, now_unix_ms())
    }

    /// Accepts a job of fixed tasks at a given time.
    pub fn submit_cooperative_at(&mut self, job: CooperativeJobSpec, now: u64) -> (r: Result<
        JobId,
        FabricError,
    >)
        requires
            old(self)@.wf(),
        ensures
            exists|ids: Seq<Seq<TaskId>>|
                {
                    let outcome = #[trigger] old(self)@.enlisted(JobModel::Cooperative(job@), now, ids);
                    final(self)@ == outcome.state && plain(r) == outcome.answer
                },
            final(self)@.wf(),
    {
        let ghost model = self@;
        let ghost shown = JobModel::Cooperative(job@);
        if let Err(message) = validate_cooperative_job(&job) {
            assert(model.enlisted(shown, now, Seq::empty()).state == model);
            return Err(FabricError::InvalidCooperativeJob(message));
        }
        let job_id = job.id;
        proof {
            crate::fabric_model::lemma_sound_graph(shown, model.objects);
        }
        let r = self.accept(JobDefinition::Cooperative(job), job_id, now);
        proof {
            let ids = choose|ids: Seq<Seq<TaskId>>|
                {
                    let outcome = #[trigger] model.accepted(shown, now, ids);
                    self@ == outcome.state && plain(r) == outcome.answer
                };
            assert(model.enlisted(shown, now, ids) == model.accepted(shown, now, ids));
        }
        r
    }

    /// Accepts a job whose roles are implemented when they become ready.
    pub fn submit_logical(&mut self, job: LogicalJobSpec) -> (r: Result<JobId, FabricError>)
        requires
            old(self)@.wf(),
        ensures
            exists|now: u64, ids: Seq<Seq<TaskId>>|
                {
                    let outcome = #[trigger] old(self)@.enlisted(JobModel::Logical(job@), now, ids);
                    final(self)@ == outcome.state && plain(r) == outcome.answer
                },
            final(self)@.wf(),
    {
        self.submit_logical_at(job, now_unix_ms())
    }

    /// Accepts a logical job at a given time.
    pub fn submit_logical_at(&mut self, job: LogicalJobSpec, now: u64) -> (r: Result<JobId, FabricError>)
        requires
            old(self)@.wf(),
        ensures
            exists|ids: Seq<Seq<TaskId>>|
                {
                    let outcome = #[trigger] old(self)@.enlisted(JobModel::Logical(job@), now, ids);
                    final(self)@ == outcome.state && plain(r) == outcome.answer
                },
            final(self)@.wf(),
    {
        let ghost model = self@;
        let ghost shown = JobModel::Logical(job@);
        if let Err(error) = validate_logical_job(&job, &self.objects) {
            assert(model.enlisted(shown, now, Seq::empty()).state == model);
            return Err(
                FabricError::InvalidLogicalJob(
                    match error {
                        PlanError::InvalidLogicalJob(message) => message,
                        PlanError::NoFeasibleImplementation(role) => role,
                    },
                ),
            );
        }
        let job_id = job.id;
        proof {
            crate::fabric_model::lemma_sound_graph(shown, model.objects);
        }
        let r = self.accept(JobDefinition::Logical(job), job_id, now);
        proof {
            let ids = choose|ids: Seq<Seq<TaskId>>|
                {
                    let outcome = #[trigger] model.accepted(shown, now, ids);
                    self@ == outcome.state && plain(r) == outcome.answer
                };
            assert(model.enlisted(shown, now, ids) == model.accepted(shown, now, ids));
        }
        r
    }
}

/// The outputs of the declared output roles, in order.
fn job_result(statuses: &NameMap<CooperativeRoleStatus>, outputs: &Vec<String>) -> (r: Vec<ObjectId>)
    ensures
        r@ == crate::fabric_model::result_of(
            crate::collections::name_views(statuses@),
            crate::text::views(outputs@),
            outputs@.len(),
        ),
{
    let ghost model = crate::collections::name_views(statuses@);
    let ghost names = crate::text::views(outputs@);
    let mut r: Vec<ObjectId> = Vec::new();
    let mut k: usize = 0;
    while k < outputs.len()
        invariant
            k <= outputs@.len(),
            model == crate::collections::name_views(statuses@),
            names == crate::text::views(outputs@),
            r@ == crate::fabric_model::result_of(model, names, k as nat),
        decreases outputs@.len() - k,
    {
        assert(names[k as int] == outputs@[k as int]@);
        if let Some(CooperativeRoleStatus::Completed(objects)) = statuses.get(outputs[k].as_str()) {
            assert(model[names[k as int]] == RoleStatusModel::Completed(objects@));
            extend_objects(&mut r, objects);
        }
        k = k + 1;
    }
    r
}

fn job_status(record: &CooperativeJobRecord) -> (r: CooperativeJobStatus)
    ensures
        r@ == record@.status(),
{
    let ghost roles = record@.roles;
    let entries = &record.roles.entries;
    let mut complete = true;
    let mut i: usize = 0;
    while i < entries.len()
        invariant
            i <= entries@.len(),
            entries == record.roles.entries,
            roles == record@.roles,
            forall|j: int|
                0 <= j < i ==> roles.contains_key((#[trigger] entries@[j]).0@) && !(roles[entries@[j].0@]
                    is Uncertain),
            complete ==> forall|j: int|
                0 <= j < i ==> roles[(#[trigger] entries@[j]).0@] is Completed,
            !complete ==> exists|name: Seq<char>| #[trigger]
                roles.contains_key(name) && !(roles[name] is Completed),
        decreases entries@.len() - i,
    {
        let ghost name = entries@[i as int].0@;
        proof {
            crate::collections::lemma_entry_names(entries@, name);
            assert(roles.contains_key(name));
        }
        match record.roles.get(entries[i].0.as_str()) {
            Some(CooperativeRoleStatus::Uncertain) => {
                assert(roles.contains_key(name) && roles[name] is Uncertain);
                return CooperativeJobStatus::Uncertain;
            },
            Some(CooperativeRoleStatus::Completed(_)) => {
                assert(roles[name] is Completed);
            },
            _ => {
                assert(roles.contains_key(name) && !(roles[name] is Completed));
                complete = false;
            },
        }
        i = i + 1;
    }
    proof {
        assert forall|name: Seq<char>| #[trigger] roles.contains_key(name) implies !(roles[name]
            is Uncertain) && (complete ==> roles[name] is Completed) by {
            crate::collections::lemma_entry_names(entries@, name);
            let j = choose|j: int| 0 <= j < entries@.len() && (#[trigger] entries@[j]).0@ == name;
            assert(entries@[j].0@ == name);
        }
    }
    if !complete {
        return CooperativeJobStatus::Running;
    }
    CooperativeJobStatus::Completed(job_result(&record.roles, job_outputs(&record.definition)))
}

/// How a role of a job is shown.
fn show_role(record: &CooperativeJobRecord, role: &JobRole) -> (r: Option<CooperativeRoleView>)
    ensures
        match r {
            Some(view) => record@.roles.contains_key(role@.name) && view@ == record@.role_view(role@),
            None => !record@.roles.contains_key(role@.name),
        },
{
    let depends_on = role.depends_on.clone();
    assert(crate::text::views(depends_on@) =~= role@.depends_on);
    let status = match record.roles.get(role.name.as_str()) {
        Some(status) => status.clone(),
        None => {
            return None;
        },
    };
    let shards = match record.shards.get(role.name.as_str()) {
        Some(held) => {
            let copy = held.shards.clone();
            assert(crate::text::views(copy@) =~= held@);
            copy
        },
        None => {
            let none: Vec<RoleShardView> = Vec::new();
            assert(crate::text::views(none@) =~= Seq::empty());
            none
        },
    };
    let view = match record.selections.get(role.name.as_str()) {
        Some(selection) => {
            let fusion = match &selection.fusion {
                Some(fusion) => Some(fusion.clone()),
                None => None,
            };
            CooperativeRoleView {
                name: role.name.clone(),
                depends_on,
                status,
                implementation: Some(selection.implementation.clone()),
                planned_resource: Some(selection.planned_resource),
                estimated_total_ms: Some(selection.estimated_total_ms),
                fusion,
                shards,
            }
        },
        None => CooperativeRoleView {
            name: role.name.clone(),
            depends_on,
            status,
            implementation: None,
            planned_resource: None,
            estimated_total_ms: None,
            fusion: None,
            shards,
        },
    };
    assert(view@ =~= record@.role_view(role@));
    Some(view)
}

impl Fabric {
    pub fn cooperative_job_status(&self, job_id: JobId) -> (r: Option<CooperativeJobStatus>)
        ensures
            crate::text::view_of(r) == if self@.jobs.contains_key(job_id.0) {
                Some(self@.jobs[job_id.0].status())
            } else {
                None
            },
    {
        match self.jobs.get(&job_id.0) {
            Some(record) => Some(job_status(record)),
            None => None,
        }
    }

    /// The roles of a job in the order of its definition.
    pub fn cooperative_role_views(&self, job_id: JobId) -> (r: Option<Vec<CooperativeRoleView>>)
        requires
            self@.wf(),
        ensures
            match r {
                Some(views) => {
                    let job = self@.jobs[job_id.0];
                    let roles = crate::fabric_model::role_graph_of(job.definition);
                    &&& self@.jobs.contains_key(job_id.0)
                    &&& crate::text::views(views@) == Seq::new(
                        roles.len(),
                        |i: int| job.role_view(roles[i]),
                    )
                },
                None => !self@.jobs.contains_key(job_id.0),
            },
    {
        let record = match self.jobs.get(&job_id.0) {
            Some(record) => record,
            None => {
                return None;
            },
        };
        let ghost job = self@.jobs[job_id.0];
        let ghost graph = crate::fabric_model::role_graph_of(job.definition);
        assert(self@.jobs.contains_key(job_id.0));
        let roles = job_roles(&record.definition);
        let mut views: Vec<CooperativeRoleView> = Vec::new();
        let mut i: usize = 0;
        while i < roles.len()
            invariant
                i <= roles@.len(),
                graph == crate::text::views(roles@),
                graph == crate::fabric_model::role_graph_of(job.definition),
                job == record@,
                crate::fabric_model::staffed(job),
                views@.len() == i,
                forall|j: int| 0 <= j < i ==> (#[trigger] views@[j])@ == job.role_view(graph[j]),
            decreases roles@.len() - i,
        {
            assert(graph[i as int] == roles@[i as int]@);
            if let Some(view) = show_role(record, &roles[i]) {
                views.push(view);
            }
            i = i + 1;
        }
        assert(crate::text::views(views@) =~= Seq::new(
            graph.len(),
            |i: int| job.role_view(graph[i]),
        ));
        Some(views)
    }
}

/// The outputs of shards in order, if all of them are there.
fn gather_shards(shards: &Vec<ShardStatus>) -> (r: Option<Vec<ObjectId>>)
    ensures
        crate::text::view_of(r) == crate::fabric_model::gathered(
            crate::text::views(shards@),
            shards@.len(),
        ),
{
    let ghost model = crate::text::views(shards@);
    let mut all: Vec<ObjectId> = Vec::new();
    let mut k: usize = 0;
    while k < shards.len()
        invariant
            k <= shards@.len(),
            model == crate::text::views(shards@),
            crate::fabric_model::gathered(model, k as nat) == Some(all@),
        decreases shards@.len() - k,
    {
        assert(model[k as int] == shards@[k as int]@);
        match &shards[k].outputs {
            Some(outputs) => {
                extend_objects(&mut all, outputs);
            },
            None => {
                proof {
                    assert(crate::fabric_model::gathered(model, (k + 1) as nat) is None);
                    lemma_gathered_stays_incomplete(model, (k + 1) as nat, model.len());
                }
                return None;
            },
        }
        k = k + 1;
    }
    Some(all)
}

proof fn lemma_gathered_stays_incomplete(shards: Seq<ShardStatusModel>, i: nat, k: nat)
    requires
        crate::fabric_model::gathered(shards, i) is None,
        i <= k,
    ensures
        crate::fabric_model::gathered(shards, k) is None,
    decreases k - i,
{
    if i < k {
        lemma_gathered_stays_incomplete(shards, i, (k - 1) as nat);
    }
}

/// The status of a sharded role once one of its shards has put something out.
fn advance_shards(status: CooperativeRoleStatus, index: usize, outputs: Vec<ObjectId>, reduces: bool) -> (r:
    CooperativeRoleStatus)
    ensures
        r@ == crate::fabric_model::after_shard(status@, index, outputs@, reduces),
{
    match status {
        CooperativeRoleStatus::Sharded(shards) => {
            let ghost before = crate::text::views(shards@);
            let mut shards = shards;
            if index < shards.len() {
                let task_id = shards[index].task_id;
                let done = ShardStatus { task_id, outputs: Some(outputs) };
                assert(before[index as int] == shards@[index as int]@);
                shards.set(index, done);
                assert(crate::text::views(shards@) =~= before.update(index as int, done@));
                if let Some(all) = gather_shards(&shards) {
                    return contribute(reduces, all);
                }
            }
            CooperativeRoleStatus::Sharded(shards)
        },
        other => other,
    }
}

/// The status of a role whose contributions are all there.
fn contribute(reduces: bool, objects: Vec<ObjectId>) -> (r: CooperativeRoleStatus)
    ensures
        r@ == crate::fabric_model::contributed(reduces, objects@),
{
    if reduces && objects.len() > 1 {
        CooperativeRoleStatus::Reducible(objects)
    } else {
        CooperativeRoleStatus::Completed(objects)
    }
}

/// What the groups of a level put out, in order, if all of them have.
fn gather_level(groups: &Vec<ReductionStatus>) -> (r: Option<Vec<ObjectId>>)
    ensures
        crate::text::view_of(r) == crate::fabric_model::level_outputs(
            crate::text::views(groups@),
            groups@.len(),
        ),
{
    let ghost model = crate::text::views(groups@);
    let mut all: Vec<ObjectId> = Vec::new();
    let mut k: usize = 0;
    while k < groups.len()
        invariant
            k <= groups@.len(),
            model == crate::text::views(groups@),
            crate::fabric_model::level_outputs(model, k as nat) == Some(all@),
        decreases groups@.len() - k,
    {
        assert(model[k as int] == groups@[k as int]@);
        match &groups[k].outputs {
            Some(outputs) => {
                extend_objects(&mut all, outputs);
            },
            None => {
                proof {
                    assert(crate::fabric_model::level_outputs(model, (k + 1) as nat) is None);
                    lemma_level_stays_incomplete(model, (k + 1) as nat, model.len());
                }
                return None;
            },
        }
        k = k + 1;
    }
    Some(all)
}

proof fn lemma_level_stays_incomplete(groups: Seq<ReductionStatusModel>, i: nat, k: nat)
    requires
        crate::fabric_model::level_outputs(groups, i) is None,
        i <= k,
    ensures
        crate::fabric_model::level_outputs(groups, k) is None,
    decreases k - i,
{
    if i < k {
        lemma_level_stays_incomplete(groups, i, (k - 1) as nat);
    }
}

/// The status of a role that reduces once one of its reducers has put something out.
fn advance_level(status: CooperativeRoleStatus, index: usize, outputs: Vec<ObjectId>) -> (r:
    CooperativeRoleStatus)
    ensures
        r@ == crate::fabric_model::after_reducer(status@, index, outputs@),
{
    match status {
        CooperativeRoleStatus::Reducing(groups) => {
            let ghost before = crate::text::views(groups@);
            let mut groups = groups;
            if index < groups.len() {
                assert(before[index as int] == groups@[index as int]@);
                let done = ReductionStatus {
                    inputs: groups[index].inputs.clone(),
                    task_id: groups[index].task_id,
                    outputs: Some(outputs),
                };
                groups.set(index, done);
                assert(crate::text::views(groups@) =~= before.update(index as int, done@));
                if let Some(all) = gather_level(&groups) {
                    return contribute(true, all);
                }
            }
            CooperativeRoleStatus::Reducing(groups)
        },
        other => other,
    }
}

/// Whether a role of a job reduces what its shards put out.
fn has_reduction(definition: &JobDefinition, name: &str) -> (r: bool)
    ensures
        r == crate::fabric_model::reduces(definition@, name@),
{
    match definition {
        JobDefinition::Cooperative(_) => false,
        JobDefinition::Logical(spec) => {
            let mut i: usize = 0;
            while i < spec.roles.len()
                invariant
                    i <= spec.roles@.len(),
                    definition@ == JobModel::Logical(spec@),
                    crate::fabric_model::reduces_from(spec@.roles, name@, 0)
                        == crate::fabric_model::reduces_from(spec@.roles, name@, i as int),
                decreases spec.roles@.len() - i,
            {
                assert(spec@.roles[i as int] == spec.roles@[i as int]@);
                if same_text(spec.roles[i].name.as_str(), name) {
                    return spec.roles[i].reduction.is_some();
                }
                i = i + 1;
            }
            false
        },
    }
}

/// Puts those of the first `n` roles that a job has into a state that takes no data.
fn mark_roles(job: &mut CooperativeJobRecord, names: &Vec<String>, n: usize, uncertain: bool)
    requires
        n <= names@.len(),
    ensures
        final(job)@ == old(job)@.with_roles(
            crate::text::views(names@),
            if uncertain {
                RoleStatusModel::Uncertain
            } else {
                RoleStatusModel::Completed(Seq::empty())
            },
            n as nat,
        ),
{
    let ghost start = job@;
    let ghost all = crate::text::views(names@);
    let ghost status = if uncertain {
        RoleStatusModel::Uncertain
    } else {
        RoleStatusModel::Completed(Seq::empty())
    };
    let mut k: usize = 0;
    while k < n
        invariant
            k <= n <= names@.len(),
            all == crate::text::views(names@),
            status == (if uncertain {
                RoleStatusModel::Uncertain
            } else {
                RoleStatusModel::Completed(Seq::empty())
            }),
            job@ == start.with_roles(all, status, k as nat),
        decreases n - k,
    {
        assert(all[k as int] == names@[k as int]@);
        if job.roles.contains_key(names[k].as_str()) {
            let next = if uncertain {
                CooperativeRoleStatus::Uncertain
            } else {
                CooperativeRoleStatus::Completed(Vec::new())
            };
            job.roles.insert(names[k].clone(), next);
        }
        assert(job@ =~= start.with_roles(all, status, (k + 1) as nat));
        k = k + 1;
    }
}

impl Fabric {
    /// Records the outputs of a task with the role, or roles, that it does the work of.
    pub(crate) fn complete_cooperative_role(&mut self, task_id: TaskId, outputs: Vec<ObjectId>, now: u64) -> (r: Result<
        (),
        FabricError,
    >)
        requires
            old(self)@.wf(),
        ensures
            exists|ids: Seq<Seq<TaskId>>|
                {
                    let outcome = #[trigger] old(self)@.role_completed(task_id, outputs@, now, ids);
                    final(self)@ == outcome.state && plain(r) == outcome.answer
                },
            final(self)@.wf(),
            crate::fabric_laws::shard_recorded(old(self)@, final(self)@, task_id, outputs@),
    {
        let ghost model = self@;
        let ghost recorded = outputs@;
        let ghost none = Seq::<Seq<TaskId>>::empty();
        let binding = match self.task_roles.get(&task_id.0) {
            Some(binding) => binding.clone(),
            None => {
                assert(model.role_completed(task_id, outputs@, now, none).state == model);
                return Ok(());
            },
        };
        assert(model.task_roles.contains_key(task_id.0));
        assert(model.grounded(model.task_roles[task_id.0]));
        let job_id = match &binding {
            TaskRoleBinding::Single { job_id, .. } => *job_id,
            TaskRoleBinding::Shard { job_id, .. } => *job_id,
            TaskRoleBinding::Reducer { job_id, .. } => *job_id,
            TaskRoleBinding::FusedChain { job_id, .. } => *job_id,
        };
        let ghost held = model.jobs[job_id.0];
        let mut job = match self.jobs.remove(&job_id.0) {
            Some(job) => job,
            None => {
                assert(self@ =~= model);
                assert(model.role_completed(task_id, outputs@, now, none).state == model);
                return Err(FabricError::UnknownJob(job_id));
            },
        };
        match binding {
            TaskRoleBinding::Single { role_name, .. } => {
                job.roles.insert(role_name, CooperativeRoleStatus::Completed(outputs));
                assert(job@ =~= held.with_role(
                    role_name@,
                    RoleStatusModel::Completed(outputs@),
                ));
            },
            TaskRoleBinding::Shard { role_name, index, .. } => {
                let reduces = has_reduction(&job.definition, role_name.as_str());
                if let Some(status) = job.roles.get(role_name.as_str()) {
                    let next = advance_shards(status.clone(), index, outputs, reduces);
                    job.roles.insert(role_name, next);
                }
                assert(job@ =~= held.with_role(
                    role_name@,
                    crate::fabric_model::after_shard(
                        held.roles[role_name@],
                        index,
                        outputs@,
                        crate::fabric_model::reduces(held.definition, role_name@),
                    ),
                ));
            },
            TaskRoleBinding::Reducer { role_name, index, .. } => {
                if let Some(status) = job.roles.get(role_name.as_str()) {
                    let next = advance_level(status.clone(), index, outputs);
                    job.roles.insert(role_name, next);
                }
                assert(job@ =~= held.with_role(
                    role_name@,
                    crate::fabric_model::after_reducer(held.roles[role_name@], index, outputs@),
                ));
            },
            TaskRoleBinding::FusedChain { role_names, .. } => {
                let ghost names = crate::text::views(role_names@);
                proof {
                    crate::fabric_model::lemma_no_missing_stage(held.roles, names, 0);
                    crate::fabric_model::lemma_with_roles(
                        held,
                        names,
                        RoleStatusModel::Completed(Seq::empty()),
                        (names.len() - 1) as nat,
                    );
                }
                let last: usize = role_names.len() - 1;
                mark_roles(&mut job, &role_names, last, false);
                assert(names.last() == role_names@[last as int]@);
                job.roles.insert(
                    role_names[last].clone(),
                    CooperativeRoleStatus::Completed(outputs),
                );
                assert(job@ =~= held.with_roles(
                    names,
                    RoleStatusModel::Completed(Seq::empty()),
                    (names.len() - 1) as nat,
                ).with_role(names.last(), RoleStatusModel::Completed(outputs@)));
            },
        }
        proof {
            crate::fabric_model::lemma_wf_with_job(model, job_id, job@);
        }
        self.put_job(job_id, job);
        assert(self@ =~= model.with_job(job_id, job@));
        let ghost advanced = self@;
        let r = self.materialize_ready_roles(job_id, now);
        proof {
            let ids = choose|ids: Seq<Seq<TaskId>>|
                {
                    let outcome = #[trigger] advanced.materialized(job_id, now, ids);
                    self@ == outcome.state && plain(r) == outcome.answer
                };
            assert(model.role_completed(task_id, recorded, now, ids) == advanced.materialized(
                job_id,
                now,
                ids,
            ));
            crate::fabric_laws::law_shards_are_recorded(model, task_id, recorded, now, ids);
        }
        r
    }
}

fn output_ids(outputs: &Vec<ObjectMetadata>) -> (r: Vec<ObjectId>)
    ensures
        r@ == crate::fabric_model::ids_of(crate::text::views(outputs@)),
{
    let ghost model = crate::text::views(outputs@);
    let mut ids: Vec<ObjectId> = Vec::new();
    let mut i: usize = 0;
    while i < outputs.len()
        invariant
            i <= outputs@.len(),
            model == crate::text::views(outputs@),
            ids@.len() == i,
            forall|j: int| 0 <= j < i ==> #[trigger] ids@[j] == model[j].id,
        decreases outputs@.len() - i,
    {
        assert(model[i as int] == outputs@[i as int]@);
        ids.push(outputs[i].id);
        i = i + 1;
    }
    assert(ids@ =~= crate::fabric_model::ids_of(model));
    ids
}

impl Fabric {
    /// The first output that contradicts a published object.
    fn find_conflict(&self, outputs: &Vec<ObjectMetadata>) -> (r: Option<ObjectId>)
        ensures
            r == crate::fabric_model::conflict_from(
                self@.objects,
                crate::text::views(outputs@),
                0,
            ),
    {
        let ghost model = crate::text::views(outputs@);
        let mut i: usize = 0;
        while i < outputs.len()
            invariant
                i <= outputs@.len(),
                model == crate::text::views(outputs@),
                crate::fabric_model::conflict_from(self@.objects, model, 0)
                    == crate::fabric_model::conflict_from(self@.objects, model, i as int),
            decreases outputs@.len() - i,
        {
            assert(model[i as int] == outputs@[i as int]@);
            if let Some(existing) = self.objects.get(&outputs[i].id.0) {
                if !same_object_identity(existing, &outputs[i]) {
                    return Some(outputs[i].id);
                }
            }
            i = i + 1;
        }
        None
    }

    /// Publishes objects, up to the first conflict.
    fn publish_all(&mut self, objects: &Vec<ObjectMetadata>) -> (r: Result<(), FabricError>)
        requires
            old(self)@.wf(),
        ensures
            ({
                let outcome = old(self)@.published_from(crate::text::views(objects@), 0);
                final(self)@ == outcome.state && plain(r) == outcome.answer
            }),
            final(self)@.wf(),
    {
        let ghost start = self@;
        let ghost all = crate::text::views(objects@);
        let mut i: usize = 0;
        while i < objects.len()
            invariant
                i <= objects@.len(),
                all == crate::text::views(objects@),
                start == old(self)@,
                self@.wf(),
                start.published_from(all, 0) == self@.published_from(all, i as int),
            decreases objects@.len() - i,
        {
            assert(all[i as int] == objects@[i as int]@);
            if let Err(error) = self.publish_object(objects[i].clone()) {
                return Err(error);
            }
            i = i + 1;
        }
        Ok(())
    }

    /// Commits the outputs of an execution that owns its task.
    pub fn complete_execution(&mut self, lease: &ExecutionLease, outputs: Vec<ObjectMetadata>) -> (r: Result<
        (),
        FabricError,
    >)
        requires
            old(self)@.wf(),
        ensures
            exists|now: u64, ids: Seq<Seq<TaskId>>|
                {
                    let outcome = #[trigger] old(self)@.completed(
                        *lease,
                        crate::text::views(outputs@),
                        now,
                        ids,
                    );
                    final(self)@ == outcome.state && plain(r) == outcome.answer
                },
            final(self)@.wf(),
    {
        self.complete_execution_at(lease, outputs, now_unix_ms())
    }

    /// Commits the outputs of an execution at a given time.
    pub fn complete_execution_at(
        &mut self,
        lease: &ExecutionLease,
        outputs: Vec<ObjectMetadata>,
        now: u64,
    ) -> (r: Result<(), FabricError>)
        requires
            old(self)@.wf(),
        ensures
            exists|ids: Seq<Seq<TaskId>>|
                {
                    let outcome = #[trigger] old(self)@.completed(
                        *lease,
                        crate::text::views(outputs@),
                        now,
                        ids,
                    );
                    final(self)@ == outcome.state && plain(r) == outcome.answer
                },
            final(self)@.wf(),
            r is Ok ==> crate::fabric_laws::shard_recorded(
                old(self)@,
                final(self)@,
                lease.task_id,
                crate::fabric_model::ids_of(crate::text::views(outputs@)),
            ),
    {
        let ghost model = self@;
        let ghost all = crate::text::views(outputs@);
        let ghost none = Seq::<Seq<TaskId>>::empty();
        if let Err(error) = self.check_lease(lease, now) {
            assert(model.completed(*lease, all, now, none).state == model);
            return Err(error);
        }
        if let Some(id) = self.find_conflict(&outputs) {
            assert(model.completed(*lease, all, now, none).state == model);
            return Err(FabricError::ObjectConflict(id));
        }
        let ids = output_ids(&outputs);
        self.set_status(lease.task_id.0, TaskStatus::Completed(ids.clone()));
        let ghost marked = self@;
        if let Err(error) = self.publish_all(&outputs) {
            assert(model.completed(*lease, all, now, none).state == self@);
            return Err(error);
        }
        let ghost stored = self@;
        let r = self.complete_cooperative_role(lease.task_id, ids, now);
        proof {
            let made = choose|made: Seq<Seq<TaskId>>|
                {
                    let outcome = #[trigger] stored.role_completed(lease.task_id, ids@, now, made);
                    self@ == outcome.state && plain(r) == outcome.answer
                };
            assert(marked.published_from(all, 0).state == stored);
            assert(model.completed(*lease, all, now, made) == stored.role_completed(
                lease.task_id,
                ids@,
                now,
                made,
            ));
            if r is Ok {
                crate::fabric_laws::law_committed_shards_are_recorded(model, *lease, all, now, made);
            }
        }
        r
    }

    /// The role, or roles, of a task become uncertain.
    fn mark_cooperative_role_uncertain(&mut self, task_id: TaskId)
        requires
            old(self)@.wf(),
        ensures
            final(self)@ == old(self)@.role_lost(task_id.0),
            final(self)@.wf(),
    {
        let ghost model = self@;
        proof {
            crate::fabric_model::lemma_wf_role_lost(model, task_id.0);
        }
        let binding = match self.task_roles.get(&task_id.0) {
            Some(binding) => binding.clone(),
            None => {
                return;
            },
        };
        let (job_id, names) = match binding {
            TaskRoleBinding::Single { job_id, role_name } => {
                let mut names: Vec<String> = Vec::new();
                names.push(role_name);
                assert(crate::text::views(names@) =~= seq![role_name@]);
                (job_id, names)
            },
            TaskRoleBinding::Shard { job_id, role_name, .. } => {
                let mut names: Vec<String> = Vec::new();
                names.push(role_name);
                assert(crate::text::views(names@) =~= seq![role_name@]);
                (job_id, names)
            },
            TaskRoleBinding::Reducer { job_id, role_name, .. } => {
                let mut names: Vec<String> = Vec::new();
                names.push(role_name);
                assert(crate::text::views(names@) =~= seq![role_name@]);
                (job_id, names)
            },
            TaskRoleBinding::FusedChain { job_id, role_names } => (job_id, role_names),
        };
        assert(model.role_lost(task_id.0) == model.roles_lost(job_id, crate::text::views(names@)));
        if let Some(job) = self.jobs.remove(&job_id.0) {
            let mut job = job;
            mark_roles(&mut job, &names, names.len(), true);
            self.put_job(job_id, job);
        }
        assert(self@ =~= model.role_lost(task_id.0));
    }

    /// Reaps the executions whose lease has expired: a task that may be replayed becomes pending,
    /// any other uncertain, and with it its role and job. Names the tasks.
    pub fn reap_expired_executions_at(&mut self, unix_ms: u64) -> (changed: Vec<TaskId>)
        requires
            old(self)@.wf(),
        ensures
            final(self)@ == old(self)@.reaped(unix_ms),
            changed@ == old(self)@.overdue_keys(unix_ms).map_values(|k: u128| TaskId(k)),
            final(self)@.wf(),
    {
        let ghost model = self@;
        let ghost overdue = |k: u128| model.overdue(k, unix_ms);
        let ghost lost = |k: u128|
            model.overdue(k, unix_ms) && !model.tasks[k].spec.effects.replayable();
        let ghost after = model.tasks_reaped(unix_ms).tasks;
        proof {
            crate::fabric_model::lemma_wf_reaped(model, unix_ms);
        }
        let keys = keys_of(&self.tasks);
        let mut changed: Vec<TaskId> = Vec::new();
        let mut uncertain: Vec<u128> = Vec::new();
        let mut i: usize = 0;
        assert(keys@.take(0).filter(overdue) =~= Seq::<u128>::empty()) by {
            reveal(Seq::filter);
        }
        assert(keys@.take(0).filter(lost) =~= Seq::<u128>::empty()) by {
            reveal(Seq::filter);
        }
        assert(changed@ =~= keys@.take(0).filter(overdue).map_values(|k: u128| TaskId(k)));
        assert(self@ =~= (FabricModel { tasks: self@.tasks, ..model }));
        while i < keys.len()
            invariant
                i <= keys@.len(),
                model.wf(),
                overdue == (|k: u128| model.overdue(k, unix_ms)),
                lost == (|k: u128|
                    model.overdue(k, unix_ms) && !model.tasks[k].spec.effects.replayable()),
                after == model.tasks_reaped(unix_ms).tasks,
                crate::collections::ascending(keys@),
                keys@.to_set() == model.tasks.dom(),
                self@ == (FabricModel { tasks: self@.tasks, ..model }),
                self@.wf(),
                self@.tasks.dom() == model.tasks.dom(),
                forall|j: int| 0 <= j < i ==> #[trigger] self@.tasks[keys@[j]] == after[keys@[j]],
                forall|j: int|
                    i <= j < keys@.len() ==> #[trigger] self@.tasks[keys@[j]] == model.tasks[keys@[j]],
                changed@ == keys@.take(i as int).filter(overdue).map_values(|k: u128| TaskId(k)),
                uncertain@ == keys@.take(i as int).filter(lost),
            decreases keys@.len() - i,
        {
            let key: u128 = keys[i];
            let ghost before = keys@.take(i as int).filter(overdue);
            let ghost held = self@;
            proof {
                crate::collections::lemma_filter_step(keys@, overdue, i as int);
                crate::collections::lemma_filter_step(keys@, lost, i as int);
                assert(keys@.to_set().contains(key));
                assert(model.tasks.contains_key(key));
                assert(self@.tasks.dom().contains(key));
                assert(self@.tasks[keys@[i as int]] == model.tasks[key]);
            }
            let mut replay = None;
            if let Some(record) = self.tasks.get(&key) {
                if let TaskStatus::Running(lease) = &record.status {
                    if lease.expires_at_unix_ms <= unix_ms {
                        replay = Some(record.spec.effects.automatically_retryable());
                    }
                }
            }
            if let Some(replayable) = replay {
                assert(model.overdue(key, unix_ms));
                if replayable {
                    self.set_status(key, TaskStatus::Pending);
                } else {
                    uncertain.push(key);
                    self.set_status(key, TaskStatus::Uncertain);
                }
                changed.push(TaskId(key));
                assert(changed@ =~= before.push(key).map_values(|k: u128| TaskId(k)));
                assert(self@.tasks.dom() =~= model.tasks.dom());
            }
            assert forall|j: int| 0 <= j < keys@.len() && j != i implies #[trigger] self@.tasks[keys@[j]]
                == held.tasks[keys@[j]] by {}
            assert(self@.tasks[key] == after[key]);
            i = i + 1;
        }
        proof {
            assert(keys@.take(keys@.len() as int) =~= keys@);
            assert forall|k: u128| model.tasks.contains_key(k) implies #[trigger] self@.tasks[k] == after[k] by {
                assert(keys@.to_set().contains(k));
                let j = choose|j: int| 0 <= j < keys@.len() && keys@[j] == k;
                assert(self@.tasks[keys@[j]] == after[keys@[j]]);
            }
            assert(self@.tasks =~= after);
            assert(self@ =~= model.tasks_reaped(unix_ms));
            assert(uncertain@ == model.lost_keys(unix_ms));
        }
        let ghost reaped = self@;
        let mut k: usize = 0;
        while k < uncertain.len()
            invariant
                k <= uncertain@.len(),
                self@.wf(),
                self@ == reaped.all_lost(uncertain@, k as nat),
            decreases uncertain@.len() - k,
        {
            self.mark_cooperative_role_uncertain(TaskId(uncertain[k]));
            k = k + 1;
        }
        changed
    }

    /// Looks again for roles that can be worked on, in every job.
    pub fn refresh_ready_roles(&mut self) -> (r: Result<(), FabricError>)
        requires
            old(self)@.wf(),
        ensures
            exists|now: u64, ids: Seq<Seq<Seq<TaskId>>>|
                {
                    let outcome = #[trigger] old(self)@.refreshed(now, ids);
                    final(self)@ == outcome.state && plain(r) == outcome.answer
                },
            final(self)@.wf(),
    {
        self.refresh_ready_roles_at(now_unix_ms())
    }

    /// Looks again for roles that can be worked on at a given time. Doing so twice finds no more.
    pub fn refresh_ready_roles_at(&mut self, now: u64) -> (r: Result<(), FabricError>)
        requires
            old(self)@.wf(),
        ensures
            exists|ids: Seq<Seq<Seq<TaskId>>>|
                {
                    let outcome = #[trigger] old(self)@.refreshed(now, ids);
                    final(self)@ == outcome.state && plain(r) == outcome.answer
                },
            final(self)@.wf(),
            r is Ok ==> forall|more: Seq<Seq<Seq<TaskId>>>| #[trigger]
                final(self)@.refreshed(now, more) == (Outcome::<()> {
                    state: final(self)@,
                    answer: Ok(()),
                }),
    {
        let ghost model = self@;
        let keys = keys_of(&self.jobs);
        let ghost jobs = crate::collections::sorted(model.jobs.dom());
        assert(self.jobs@.dom() =~= model.jobs.dom());
        let ghost mut ids: Seq<Seq<Seq<TaskId>>> = Seq::empty();
        let mut i: usize = 0;
        while i < keys.len()
            invariant
                i <= keys@.len(),
                model == old(self)@,
                keys@ == jobs,
                jobs == crate::collections::sorted(model.jobs.dom()),
                self@.wf(),
                ids.len() == i,
                forall|more: Seq<Seq<Seq<TaskId>>>| #[trigger]
                    model.refreshed_from(jobs, 0, now, ids + more) == self@.refreshed_from(
                        jobs,
                        i as int,
                        now,
                        ids + more,
                    ),
            decreases keys@.len() - i,
        {
            let ghost before = self@;
            let job_id = JobId(keys[i]);
            let result = self.materialize_ready_roles(job_id, now);
            let ghost earlier = ids;
            proof {
                let made = choose|made: Seq<Seq<TaskId>>|
                    {
                        let outcome = #[trigger] before.materialized(job_id, now, made);
                        self@ == outcome.state && plain(result) == outcome.answer
                    };
                ids = ids.push(made);
                assert forall|more: Seq<Seq<Seq<TaskId>>>| #[trigger]
                    model.refreshed_from(jobs, 0, now, ids + more) == before.refreshed_from(
                    jobs,
                    i as int,
                    now,
                    ids + more,
                ) by {
                    assert(ids + more =~= earlier + (seq![made] + more));
                }
                assert forall|more: Seq<Seq<Seq<TaskId>>>| (ids + more)[i as int] == made by {}
            }
            if let Err(error) = result {
                proof {
                    let none = Seq::<Seq<Seq<TaskId>>>::empty();
                    assert(ids + none =~= ids);
                    assert(model.refreshed_from(jobs, 0, now, ids + none) == before.refreshed_from(
                        jobs,
                        i as int,
                        now,
                        ids + none,
                    ));
                    assert(model.refreshed(now, ids).state == self@);
                }
                return Err(error);
            }
            i = i + 1;
        }
        proof {
            let none = Seq::<Seq<Seq<TaskId>>>::empty();
            assert(ids + none =~= ids);
            assert(model.refreshed_from(jobs, 0, now, ids + none) == self@.refreshed_from(
                jobs,
                i as int,
                now,
                ids + none,
            ));
            assert(model.refreshed(now, ids).state == self@);
            assert forall|more: Seq<Seq<Seq<TaskId>>>| #[trigger]
                self@.refreshed(now, more) == (Outcome::<()> { state: self@, answer: Ok(()) }) by {
                crate::materialization_laws::law_refreshing_again_changes_nothing(model, now, ids, more);
            }
        }
        Ok(())
    }
}

}
