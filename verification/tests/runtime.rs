use plurifold::binary64::Binary64;
use plurifold::collections::{NameMap, NameSet};
use plurifold::fabric::{fusion_chain, Fabric};
use plurifold::ids::{JobId, ObjectId, ResourceId, TaskId};
use plurifold::jobs::{
    default_role_shards, CooperativeJobSpec, CooperativeRoleSpec, LogicalJobSpec, LogicalRoleSpec,
    RoleImplementation,
};
use plurifold::objects::ObjectMetadata;
use plurifold::resources::{Architecture, ResourceDescriptor, ResourceRequirements};
use plurifold::status::{CooperativeJobStatus, CooperativeRoleStatus, FabricError, TaskStatus};
use plurifold::tasks::{
    CostHint, EffectSemantics, PipelineInput, TaskPipeline, TaskPipelineStage, TaskSpec,
    TaskTemplate,
};
use plurifold::topology::{LinkProfile, TopologySnapshot};

fn binary(x: f64) -> Binary64 {
    Binary64::from_bits(x.to_bits())
}

fn number(x: Binary64) -> f64 {
    f64::from_bits(x.to_bits())
}

fn resource(id: ResourceId) -> ResourceDescriptor {
    ResourceDescriptor {
        id,
        epoch: 0,
        architecture: Architecture::X86_64,
        cpu_cores: 8,
        memory_bytes: 16 << 30,
        accelerators: vec![],
        features: NameSet::new(),
        performance_score: binary(1.0),
        queue_delay_ms: binary(0.0),
        startup_delay_ms: binary(0.0),
        failure_probability: binary(0.0),
    }
}

fn task(effects: EffectSemantics) -> TaskSpec {
    TaskSpec {
        id: TaskId::new(),
        artifact: "test".into(),
        entrypoint: "run".into(),
        arguments: vec![],
        inputs: vec![],
        requirements: ResourceRequirements::default(),
        effects,
        cost: CostHint::default(),
        shard: None,
        pipeline: None,
    }
}

fn task_template(effects: EffectSemantics) -> TaskTemplate {
    TaskTemplate {
        artifact: "test".into(),
        entrypoint: "run".into(),
        arguments: vec![],
        inputs: vec![],
        requirements: ResourceRequirements::default(),
        effects,
        cost: CostHint::default(),
    }
}

fn logical_implementation(
    name: &str,
    feature: &str,
    compute_ms: f64,
    output_bytes: u64,
) -> RoleImplementation {
    RoleImplementation {
        name: name.into(),
        task: TaskTemplate {
            artifact: "builtin:identity".into(),
            entrypoint: "run".into(),
            arguments: vec![],
            inputs: vec![],
            requirements: ResourceRequirements {
                required_features: NameSet::from_list(vec![feature.to_owned()]),
                ..ResourceRequirements::default()
            },
            effects: EffectSemantics::Pure,
            cost: CostHint {
                compute_ms_on_reference: binary(compute_ms),
                output_bytes,
            },
        },
    }
}

fn fusion_resource(
    id: ResourceId,
    performance_score: f64,
    startup_delay_ms: f64,
    features: &[&str],
) -> ResourceDescriptor {
    ResourceDescriptor {
        id,
        epoch: 0,
        architecture: Architecture::X86_64,
        cpu_cores: 8,
        memory_bytes: 16 << 30,
        accelerators: vec![],
        features: NameSet::from_list(
            features
                .iter()
                .map(|feature| (*feature).to_owned())
                .collect(),
        ),
        performance_score: binary(performance_score),
        queue_delay_ms: binary(0.0),
        startup_delay_ms: binary(startup_delay_ms),
        failure_probability: binary(0.0),
    }
}

fn fusion_job() -> LogicalJobSpec {
    LogicalJobSpec {
        id: JobId::new(),
        roles: vec![
            LogicalRoleSpec {
                reduction: None,
                shards: default_role_shards(),
                name: "producer".into(),
                implementations: vec![RoleImplementation {
                    name: "producer-builtin".into(),
                    task: TaskTemplate {
                        artifact: "builtin:echo".into(),
                        entrypoint: "run".into(),
                        arguments: vec!["intermediate".into()],
                        inputs: vec![],
                        requirements: ResourceRequirements {
                            required_features: NameSet::from_list(vec!["fusion:producer".into()]),
                            ..ResourceRequirements::default()
                        },
                        effects: EffectSemantics::Pure,
                        cost: CostHint {
                            compute_ms_on_reference: binary(100.0),
                            output_bytes: 106_250,
                        },
                    },
                }],
                depends_on: vec![],
            },
            LogicalRoleSpec {
                reduction: None,
                shards: default_role_shards(),
                name: "consumer".into(),
                implementations: vec![RoleImplementation {
                    name: "consumer-builtin".into(),
                    task: TaskTemplate {
                        artifact: "builtin:identity".into(),
                        entrypoint: "run".into(),
                        arguments: vec![],
                        inputs: vec![],
                        requirements: ResourceRequirements {
                            required_features: NameSet::from_list(vec!["fusion:consumer".into()]),
                            ..ResourceRequirements::default()
                        },
                        effects: EffectSemantics::Pure,
                        cost: CostHint {
                            compute_ms_on_reference: binary(1_000.0),
                            output_bytes: 12,
                        },
                    },
                }],
                depends_on: vec!["producer".into()],
            },
        ],
        outputs: vec!["consumer".into()],
    }
}

fn three_stage_fusion_job(middle_output_bytes: u64, final_compute_ms: f64) -> LogicalJobSpec {
    LogicalJobSpec {
        id: JobId::new(),
        roles: vec![
            LogicalRoleSpec {
                reduction: None,
                shards: default_role_shards(),
                name: "producer".into(),
                implementations: vec![RoleImplementation {
                    name: "producer-builtin".into(),
                    task: TaskTemplate {
                        artifact: "builtin:echo".into(),
                        entrypoint: "run".into(),
                        arguments: vec!["intermediate".into()],
                        inputs: vec![],
                        requirements: ResourceRequirements {
                            required_features: NameSet::from_list(vec!["fusion:producer".into()]),
                            ..ResourceRequirements::default()
                        },
                        effects: EffectSemantics::Pure,
                        cost: CostHint {
                            compute_ms_on_reference: binary(100.0),
                            output_bytes: 106_250,
                        },
                    },
                }],
                depends_on: vec![],
            },
            LogicalRoleSpec {
                reduction: None,
                shards: default_role_shards(),
                name: "middle".into(),
                implementations: vec![RoleImplementation {
                    name: "middle-builtin".into(),
                    task: TaskTemplate {
                        artifact: "builtin:identity".into(),
                        entrypoint: "run".into(),
                        arguments: vec![],
                        inputs: vec![],
                        requirements: ResourceRequirements {
                            required_features: NameSet::from_list(vec!["fusion:middle".into()]),
                            ..ResourceRequirements::default()
                        },
                        effects: EffectSemantics::Pure,
                        cost: CostHint {
                            compute_ms_on_reference: binary(100.0),
                            output_bytes: middle_output_bytes,
                        },
                    },
                }],
                depends_on: vec!["producer".into()],
            },
            LogicalRoleSpec {
                reduction: None,
                shards: default_role_shards(),
                name: "consumer".into(),
                implementations: vec![RoleImplementation {
                    name: "consumer-builtin".into(),
                    task: TaskTemplate {
                        artifact: "builtin:identity".into(),
                        entrypoint: "run".into(),
                        arguments: vec![],
                        inputs: vec![],
                        requirements: ResourceRequirements {
                            required_features: NameSet::from_list(vec!["fusion:consumer".into()]),
                            ..ResourceRequirements::default()
                        },
                        effects: EffectSemantics::Pure,
                        cost: CostHint {
                            compute_ms_on_reference: binary(final_compute_ms),
                            output_bytes: 12,
                        },
                    },
                }],
                depends_on: vec!["middle".into()],
            },
        ],
        outputs: vec!["consumer".into()],
    }
}

#[test]
fn resources_hot_join_and_leave_without_global_reconfiguration() {
    let mut fabric = Fabric::default();
    let first = ResourceId::new();
    let second = ResourceId::new();
    fabric.register_resource(resource(first));
    fabric.register_resource(resource(second));
    assert_eq!(fabric.active_resource_count(), 2);
    fabric.unregister_resource(first);
    assert_eq!(fabric.active_resource_count(), 1);
}

#[test]
fn malformed_pipeline_is_rejected_at_submission() {
    let mut fabric = Fabric::default();
    let mut pipeline_task = task(EffectSemantics::Pure);
    pipeline_task.artifact = "plurifold:pipeline".into();
    pipeline_task.pipeline = Some(TaskPipeline {
        stages: vec![
            TaskPipelineStage {
                artifact: "builtin:identity".into(),
                entrypoint: "run".into(),
                arguments: vec![],
                inputs: vec![PipelineInput::External { index: 0 }],
            },
            TaskPipelineStage {
                artifact: "builtin:identity".into(),
                entrypoint: "run".into(),
                arguments: vec![],
                inputs: vec![PipelineInput::PreviousOutput],
            },
        ],
    });

    let error = fabric.submit(pipeline_task).unwrap_err();
    assert!(matches!(error, FabricError::InvalidTask(_)));
}

#[test]
fn high_transfer_cost_fuses_a_linear_logical_pair() {
    let mut fabric = Fabric::default();
    let local = ResourceId::new();
    let remote = ResourceId::new();
    fabric.register_resource(fusion_resource(
        local,
        1.0,
        500.0,
        &["fusion:producer", "fusion:consumer"],
    ));
    fabric.register_resource(fusion_resource(remote, 10.0, 0.0, &["fusion:consumer"]));
    fabric.upsert_link(LinkProfile {
        from: local,
        to: remote,
        rtt_ms: binary(100.0),
        bandwidth_mbps: binary(1.0),
    });

    let job_id = fabric.submit_logical(fusion_job()).unwrap();
    let views = fabric.cooperative_role_views(job_id).unwrap();
    let producer = views.iter().find(|role| role.name == "producer").unwrap();
    let consumer = views.iter().find(|role| role.name == "consumer").unwrap();
    let producer_task = match producer.status {
        CooperativeRoleStatus::Submitted(task_id) => task_id,
        ref status => panic!("producer was not submitted: {status:?}"),
    };
    let consumer_task = match consumer.status {
        CooperativeRoleStatus::Submitted(task_id) => task_id,
        ref status => panic!("consumer was not submitted: {status:?}"),
    };
    assert_eq!(producer_task, consumer_task);
    assert_eq!(producer.planned_resource, Some(local));
    assert_eq!(consumer.planned_resource, Some(local));
    assert_eq!(
        producer.fusion.as_ref().unwrap().chain_roles,
        vec!["producer".to_owned(), "consumer".to_owned()]
    );
    assert_eq!(producer.fusion.as_ref().unwrap().stage_index, 0);
    assert_eq!(consumer.fusion.as_ref().unwrap().stage_index, 1);
    assert!(
        number(
            producer
                .fusion
                .as_ref()
                .unwrap()
                .estimated_avoided_transfer_ms
        ) > 20.0
    );
    assert!(number(producer.fusion.as_ref().unwrap().estimated_vs_separate_ms) >= 0.0);
    assert!(fabric.task_spec(producer_task).unwrap().pipeline.is_some());

    let lease = fabric.begin_execution(producer_task, local).unwrap();
    let output = ObjectId::new();
    fabric
        .complete_execution(
            &lease,
            vec![ObjectMetadata {
                id: output,
                size_bytes: 12,
                digest: Some("sha256:test".into()),
                encoding: Some("application/octet-stream".into()),
                locations: vec![local],
                producer: Some(producer_task),
            }],
        )
        .unwrap();
    let completed = fabric.cooperative_role_views(job_id).unwrap();
    let producer = completed
        .iter()
        .find(|role| role.name == "producer")
        .unwrap();
    let consumer = completed
        .iter()
        .find(|role| role.name == "consumer")
        .unwrap();
    assert_eq!(producer.status, CooperativeRoleStatus::Completed(vec![]));
    assert_eq!(
        consumer.status,
        CooperativeRoleStatus::Completed(vec![output])
    );
    assert_eq!(
        fabric.cooperative_job_status(job_id),
        Some(CooperativeJobStatus::Completed(vec![output]))
    );
}

#[test]
fn high_transfer_cost_fuses_a_three_stage_chain() {
    let mut fabric = Fabric::default();
    let local = ResourceId::new();
    let remote = ResourceId::new();
    fabric.register_resource(fusion_resource(
        local,
        1.0,
        500.0,
        &["fusion:producer", "fusion:middle", "fusion:consumer"],
    ));
    fabric.register_resource(fusion_resource(
        remote,
        10.0,
        0.0,
        &["fusion:middle", "fusion:consumer"],
    ));
    fabric.upsert_link(LinkProfile {
        from: local,
        to: remote,
        rtt_ms: binary(100.0),
        bandwidth_mbps: binary(1.0),
    });

    let job_id = fabric
        .submit_logical(three_stage_fusion_job(106_250, 100.0))
        .unwrap();
    let views = fabric.cooperative_role_views(job_id).unwrap();
    let producer = views.iter().find(|role| role.name == "producer").unwrap();
    let middle = views.iter().find(|role| role.name == "middle").unwrap();
    let consumer = views.iter().find(|role| role.name == "consumer").unwrap();
    let task_id = match producer.status {
        CooperativeRoleStatus::Submitted(task_id) => task_id,
        ref status => panic!("producer was not submitted: {status:?}"),
    };
    assert_eq!(middle.status, CooperativeRoleStatus::Submitted(task_id));
    assert_eq!(consumer.status, CooperativeRoleStatus::Submitted(task_id));
    let expected_chain = vec![
        "producer".to_owned(),
        "middle".to_owned(),
        "consumer".to_owned(),
    ];
    assert_eq!(
        producer.fusion.as_ref().unwrap().chain_roles,
        expected_chain
    );
    assert_eq!(producer.fusion.as_ref().unwrap().stage_index, 0);
    assert_eq!(middle.fusion.as_ref().unwrap().stage_index, 1);
    assert_eq!(consumer.fusion.as_ref().unwrap().stage_index, 2);
    let pipeline = fabric
        .task_spec(task_id)
        .unwrap()
        .pipeline
        .as_ref()
        .unwrap();
    assert_eq!(pipeline.stages.len(), 3);

    let lease = fabric.begin_execution(task_id, local).unwrap();
    let output = ObjectId::new();
    fabric
        .complete_execution(
            &lease,
            vec![ObjectMetadata {
                id: output,
                size_bytes: 12,
                digest: Some("sha256:three-stage".into()),
                encoding: Some("application/octet-stream".into()),
                locations: vec![local],
                producer: Some(task_id),
            }],
        )
        .unwrap();
    let completed = fabric.cooperative_role_views(job_id).unwrap();
    assert_eq!(
        completed
            .iter()
            .find(|role| role.name == "producer")
            .unwrap()
            .status,
        CooperativeRoleStatus::Completed(vec![])
    );
    assert_eq!(
        completed
            .iter()
            .find(|role| role.name == "middle")
            .unwrap()
            .status,
        CooperativeRoleStatus::Completed(vec![])
    );
    assert_eq!(
        completed
            .iter()
            .find(|role| role.name == "consumer")
            .unwrap()
            .status,
        CooperativeRoleStatus::Completed(vec![output])
    );
}

#[test]
fn chain_fusion_stops_when_leaving_the_tail_separate_is_cheaper() {
    let mut fabric = Fabric::default();
    let local = ResourceId::new();
    let remote = ResourceId::new();
    fabric.register_resource(fusion_resource(
        local,
        1.0,
        500.0,
        &["fusion:producer", "fusion:middle", "fusion:consumer"],
    ));
    fabric.register_resource(fusion_resource(
        remote,
        10.0,
        0.0,
        &["fusion:middle", "fusion:consumer"],
    ));
    fabric.upsert_link(LinkProfile {
        from: local,
        to: remote,
        rtt_ms: binary(100.0),
        bandwidth_mbps: binary(1.0),
    });

    let job_id = fabric
        .submit_logical(three_stage_fusion_job(1, 10_000.0))
        .unwrap();
    let views = fabric.cooperative_role_views(job_id).unwrap();
    let producer = views.iter().find(|role| role.name == "producer").unwrap();
    let middle = views.iter().find(|role| role.name == "middle").unwrap();
    let consumer = views.iter().find(|role| role.name == "consumer").unwrap();
    let fused_task = match producer.status {
        CooperativeRoleStatus::Submitted(task_id) => task_id,
        ref status => panic!("producer was not submitted: {status:?}"),
    };
    assert_eq!(middle.status, CooperativeRoleStatus::Submitted(fused_task));
    assert_eq!(consumer.status, CooperativeRoleStatus::Waiting);
    assert_eq!(
        producer.fusion.as_ref().unwrap().chain_roles,
        vec!["producer".to_owned(), "middle".to_owned()]
    );
    assert_eq!(
        fabric
            .task_spec(fused_task)
            .unwrap()
            .pipeline
            .as_ref()
            .unwrap()
            .stages
            .len(),
        2
    );

    let lease = fabric.begin_execution(fused_task, local).unwrap();
    let intermediate = ObjectId::new();
    fabric
        .complete_execution(
            &lease,
            vec![ObjectMetadata {
                id: intermediate,
                size_bytes: 1,
                digest: Some("sha256:prefix".into()),
                encoding: Some("application/octet-stream".into()),
                locations: vec![local],
                producer: Some(fused_task),
            }],
        )
        .unwrap();

    let after_prefix = fabric.cooperative_role_views(job_id).unwrap();
    let consumer = after_prefix
        .iter()
        .find(|role| role.name == "consumer")
        .unwrap();
    let consumer_task = match consumer.status {
        CooperativeRoleStatus::Submitted(task_id) => task_id,
        ref status => panic!("consumer was not submitted after prefix completion: {status:?}"),
    };
    assert_ne!(consumer_task, fused_task);
    assert!(consumer.fusion.is_none());
    assert_eq!(consumer.planned_resource, Some(remote));
}

#[test]
fn non_fusable_tail_does_not_block_a_safe_prefix() {
    let mut fabric = Fabric::default();
    let local = ResourceId::new();
    let remote = ResourceId::new();
    fabric.register_resource(fusion_resource(
        local,
        1.0,
        500.0,
        &["fusion:producer", "fusion:middle", "fusion:consumer"],
    ));
    fabric.register_resource(fusion_resource(
        remote,
        10.0,
        0.0,
        &["fusion:middle", "fusion:consumer"],
    ));
    fabric.upsert_link(LinkProfile {
        from: local,
        to: remote,
        rtt_ms: binary(100.0),
        bandwidth_mbps: binary(1.0),
    });
    let mut job = three_stage_fusion_job(1, 10_000.0);
    job.roles[2].implementations[0].task.effects = EffectSemantics::Exclusive;

    let job_id = fabric.submit_logical(job).unwrap();
    let views = fabric.cooperative_role_views(job_id).unwrap();
    let producer = views.iter().find(|role| role.name == "producer").unwrap();
    let middle = views.iter().find(|role| role.name == "middle").unwrap();
    let consumer = views.iter().find(|role| role.name == "consumer").unwrap();
    let task_id = match producer.status {
        CooperativeRoleStatus::Submitted(task_id) => task_id,
        ref status => panic!("producer was not submitted: {status:?}"),
    };
    assert_eq!(middle.status, CooperativeRoleStatus::Submitted(task_id));
    assert_eq!(consumer.status, CooperativeRoleStatus::Waiting);
    assert_eq!(
        producer.fusion.as_ref().unwrap().chain_roles,
        vec!["producer".to_owned(), "middle".to_owned()]
    );
}

#[test]
fn fast_link_keeps_a_linear_logical_pair_separate() {
    let mut fabric = Fabric::default();
    let local = ResourceId::new();
    let remote = ResourceId::new();
    fabric.register_resource(fusion_resource(
        local,
        1.0,
        500.0,
        &["fusion:producer", "fusion:consumer"],
    ));
    fabric.register_resource(fusion_resource(remote, 10.0, 0.0, &["fusion:consumer"]));
    fabric.upsert_link(LinkProfile {
        from: local,
        to: remote,
        rtt_ms: binary(1.0),
        bandwidth_mbps: binary(10_000.0),
    });

    let job_id = fabric.submit_logical(fusion_job()).unwrap();
    let views = fabric.cooperative_role_views(job_id).unwrap();
    let producer = views.iter().find(|role| role.name == "producer").unwrap();
    let consumer = views.iter().find(|role| role.name == "consumer").unwrap();
    let producer_task = match producer.status {
        CooperativeRoleStatus::Submitted(task_id) => task_id,
        ref status => panic!("producer was not submitted: {status:?}"),
    };
    assert_eq!(consumer.status, CooperativeRoleStatus::Waiting);
    assert!(producer.fusion.is_none());
    assert!(fabric.task_spec(producer_task).unwrap().pipeline.is_none());
}

#[test]
fn branching_producer_is_not_fusion_eligible() {
    let producer = LogicalRoleSpec {
        reduction: None,
        shards: default_role_shards(),
        name: "producer".into(),
        implementations: vec![logical_implementation("producer", "p", 1.0, 10)],
        depends_on: vec![],
    };
    let first_consumer = LogicalRoleSpec {
        reduction: None,
        shards: default_role_shards(),
        name: "first".into(),
        implementations: vec![logical_implementation("first", "c", 1.0, 1)],
        depends_on: vec!["producer".into()],
    };
    let second_consumer = LogicalRoleSpec {
        reduction: None,
        shards: default_role_shards(),
        name: "second".into(),
        implementations: vec![logical_implementation("second", "c", 1.0, 1)],
        depends_on: vec!["producer".into()],
    };
    let spec = LogicalJobSpec {
        id: JobId::new(),
        roles: vec![
            producer.clone(),
            first_consumer.clone(),
            second_consumer.clone(),
        ],
        outputs: vec!["first".into(), "second".into()],
    };
    let mut statuses = NameMap::new();
    statuses.insert("producer".into(), CooperativeRoleStatus::Waiting);
    statuses.insert("first".into(), CooperativeRoleStatus::Waiting);
    statuses.insert("second".into(), CooperativeRoleStatus::Waiting);

    assert_eq!(fusion_chain(&spec, &statuses, &producer), vec![producer]);
}

#[test]
fn declared_intermediate_output_stops_chain_growth() {
    let mut spec = three_stage_fusion_job(10, 10.0);
    spec.outputs = vec!["middle".into(), "consumer".into()];
    let producer = spec
        .roles
        .iter()
        .find(|role| role.name == "producer")
        .unwrap();
    let mut statuses = NameMap::new();
    for role in &spec.roles {
        statuses.insert(role.name.clone(), CooperativeRoleStatus::Waiting);
    }

    let chain = fusion_chain(&spec, &statuses, producer);
    assert_eq!(
        chain
            .iter()
            .map(|role| role.name.as_str())
            .collect::<Vec<_>>(),
        vec!["producer", "middle"]
    );
}

#[test]
fn scheduler_spreads_work_away_from_busy_resources() {
    let mut fabric = Fabric::new(10_000, 10_000);
    let fast = ResourceId::new();
    let slow = ResourceId::new();
    let mut fast_resource = resource(fast);
    fast_resource.performance_score = binary(10.0);
    fabric.register_resource(fast_resource);
    fabric.register_resource(resource(slow));

    let first = task(EffectSemantics::Pure);
    let first_id = first.id;
    fabric.submit(first).unwrap();
    assert_eq!(fabric.schedule_task(first_id).unwrap().resource_id, fast);
    fabric.begin_execution(first_id, fast).unwrap();

    let second = task(EffectSemantics::Pure);
    let second_id = second.id;
    fabric.submit(second).unwrap();
    assert_eq!(fabric.schedule_task(second_id).unwrap().resource_id, slow);
}

#[test]
fn expired_pure_work_is_replayable_but_exclusive_work_is_uncertain() {
    let mut fabric = Fabric::new(10_000, 0);
    let worker = ResourceId::new();
    fabric.register_resource(resource(worker));

    let pure = task(EffectSemantics::Pure);
    let pure_id = pure.id;
    fabric.submit(pure).unwrap();
    let pure_lease = fabric.begin_execution(pure_id, worker).unwrap();

    let exclusive = task(EffectSemantics::Exclusive);
    let exclusive_id = exclusive.id;
    fabric.submit(exclusive).unwrap();
    let exclusive_lease = fabric.begin_execution(exclusive_id, worker).unwrap();

    let reap_at = pure_lease
        .expires_at_unix_ms
        .max(exclusive_lease.expires_at_unix_ms);
    fabric.reap_expired_executions_at(reap_at);

    assert_eq!(fabric.task_status(pure_id), Some(&TaskStatus::Pending));
    assert_eq!(
        fabric.task_status(exclusive_id),
        Some(&TaskStatus::Uncertain)
    );
}

#[test]
fn completion_publishes_immutable_output_metadata() {
    let mut fabric = Fabric::new(10_000, 10_000);
    let worker = ResourceId::new();
    fabric.register_resource(resource(worker));
    let task = task(EffectSemantics::Pure);
    let task_id = task.id;
    fabric.submit(task).unwrap();
    let lease = fabric.begin_execution(task_id, worker).unwrap();
    let output = ObjectMetadata {
        id: ObjectId::new(),
        size_bytes: 42,
        digest: Some("sha256:test".into()),
        encoding: Some("application/octet-stream".into()),
        locations: vec![worker],
        producer: Some(task_id),
    };
    let output_id = output.id;
    fabric.complete_execution(&lease, vec![output]).unwrap();
    assert_eq!(
        fabric.task_status(task_id),
        Some(&TaskStatus::Completed(vec![output_id]))
    );
}

#[test]
fn old_resource_epoch_cannot_commit_after_reregistration() {
    let mut fabric = Fabric::new(10_000, 10_000);
    let worker = ResourceId::new();
    fabric.register_resource(resource(worker));
    let task = task(EffectSemantics::Pure);
    let task_id = task.id;
    fabric.submit(task).unwrap();
    let stale_execution = fabric.begin_execution(task_id, worker).unwrap();

    let new_membership = fabric.register_resource(resource(worker));
    assert!(new_membership.epoch > stale_execution.resource_epoch);

    let error = fabric
        .complete_execution(&stale_execution, Vec::new())
        .unwrap_err();
    assert!(matches!(error, FabricError::StaleResourceEpoch(id) if id == worker));
}

#[test]
fn conflicting_object_publication_is_rejected() {
    let mut fabric = Fabric::default();
    let object_id = ObjectId::new();
    let first = ObjectMetadata {
        id: object_id,
        size_bytes: 4,
        digest: Some("sha256:first".into()),
        encoding: Some("application/octet-stream".into()),
        locations: vec![],
        producer: None,
    };
    fabric.publish_object(first).unwrap();

    let conflicting = ObjectMetadata {
        id: object_id,
        size_bytes: 5,
        digest: Some("sha256:second".into()),
        encoding: Some("application/octet-stream".into()),
        locations: vec![],
        producer: None,
    };
    let error = fabric.publish_object(conflicting).unwrap_err();
    assert!(matches!(error, FabricError::ObjectConflict(id) if id == object_id));
}

#[test]
fn expired_resource_is_pruned_from_objects_and_topology() {
    let mut fabric = Fabric::new(100, 10_000);
    let expired = ResourceId::new();
    let survivor = ResourceId::new();
    let expired_lease = fabric.register_resource_at(resource(expired), 1_000);
    let survivor_lease = fabric.register_resource_at(resource(survivor), 1_002);
    assert!(survivor_lease.expires_at_unix_ms > expired_lease.expires_at_unix_ms);

    let object_id = ObjectId::new();
    fabric
        .publish_object(ObjectMetadata {
            id: object_id,
            size_bytes: 4,
            digest: Some("sha256:test".into()),
            encoding: None,
            locations: vec![expired, survivor],
            producer: None,
        })
        .unwrap();
    fabric.set_topology(TopologySnapshot {
        links: vec![LinkProfile {
            from: expired,
            to: survivor,
            rtt_ms: binary(10.0),
            bandwidth_mbps: binary(100.0),
        }],
    });

    fabric.expire_resources_at(expired_lease.expires_at_unix_ms);

    assert_eq!(
        fabric.object_metadata(object_id).unwrap().locations,
        vec![survivor]
    );
    assert!(fabric.topology().links.is_empty());
}

#[test]
fn cooperative_job_runs_independent_roles_before_join_role() {
    let mut fabric = Fabric::new(10_000, 10_000);
    let worker = ResourceId::new();
    fabric.register_resource(resource(worker));
    let job_id = JobId::new();
    fabric
        .submit_cooperative(CooperativeJobSpec {
            id: job_id,
            roles: vec![
                CooperativeRoleSpec {
                    name: "left".into(),
                    task: task_template(EffectSemantics::Pure),
                    depends_on: vec![],
                },
                CooperativeRoleSpec {
                    name: "right".into(),
                    task: task_template(EffectSemantics::Pure),
                    depends_on: vec![],
                },
                CooperativeRoleSpec {
                    name: "join".into(),
                    task: task_template(EffectSemantics::Pure),
                    depends_on: vec!["left".into(), "right".into()],
                },
            ],
            outputs: vec!["join".into()],
        })
        .unwrap();

    let roots = fabric.pending_task_ids();
    assert_eq!(roots.len(), 2);
    let views = fabric.cooperative_role_views(job_id).unwrap();
    assert!(views
        .iter()
        .any(|role| { role.name == "join" && role.status == CooperativeRoleStatus::Waiting }));

    let first = roots[0];
    let first_lease = fabric.begin_execution(first, worker).unwrap();
    let first_output = ObjectMetadata {
        id: ObjectId::new(),
        size_bytes: 1,
        digest: Some("sha256:first".into()),
        encoding: None,
        locations: vec![worker],
        producer: Some(first),
    };
    fabric
        .complete_execution(&first_lease, vec![first_output])
        .unwrap();
    assert_eq!(fabric.pending_task_ids().len(), 1);

    let second = roots[1];
    let second_lease = fabric.begin_execution(second, worker).unwrap();
    let second_output = ObjectMetadata {
        id: ObjectId::new(),
        size_bytes: 1,
        digest: Some("sha256:second".into()),
        encoding: None,
        locations: vec![worker],
        producer: Some(second),
    };
    fabric
        .complete_execution(&second_lease, vec![second_output])
        .unwrap();

    let pending = fabric.pending_task_ids();
    assert_eq!(pending.len(), 1);
    let join = fabric.task_spec(pending[0]).unwrap();
    assert_eq!(join.inputs.len(), 2);
    let join_id = join.id;
    assert!(matches!(
        fabric.cooperative_job_status(job_id),
        Some(CooperativeJobStatus::Running)
    ));

    let join_lease = fabric.begin_execution(join_id, worker).unwrap();
    let final_output = ObjectMetadata {
        id: ObjectId::new(),
        size_bytes: 2,
        digest: Some("sha256:joined".into()),
        encoding: None,
        locations: vec![worker],
        producer: Some(join_id),
    };
    let final_id = final_output.id;
    fabric
        .complete_execution(&join_lease, vec![final_output])
        .unwrap();
    assert_eq!(
        fabric.cooperative_job_status(job_id),
        Some(CooperativeJobStatus::Completed(vec![final_id]))
    );
}

#[test]
fn cooperative_job_rejects_dependency_cycles() {
    let mut fabric = Fabric::default();
    let error = fabric
        .submit_cooperative(CooperativeJobSpec {
            id: JobId::new(),
            roles: vec![
                CooperativeRoleSpec {
                    name: "a".into(),
                    task: task_template(EffectSemantics::Pure),
                    depends_on: vec!["b".into()],
                },
                CooperativeRoleSpec {
                    name: "b".into(),
                    task: task_template(EffectSemantics::Pure),
                    depends_on: vec!["a".into()],
                },
            ],
            outputs: vec!["b".into()],
        })
        .unwrap_err();
    assert!(matches!(error, FabricError::InvalidCooperativeJob(_)));
}

#[test]
fn exclusive_role_uncertainty_propagates_to_cooperative_job() {
    let mut fabric = Fabric::new(10_000, 0);
    let worker = ResourceId::new();
    fabric.register_resource(resource(worker));
    let job_id = JobId::new();
    fabric
        .submit_cooperative(CooperativeJobSpec {
            id: job_id,
            roles: vec![CooperativeRoleSpec {
                name: "side-effect".into(),
                task: task_template(EffectSemantics::Exclusive),
                depends_on: vec![],
            }],
            outputs: vec!["side-effect".into()],
        })
        .unwrap();
    let task_id = fabric.pending_task_ids()[0];
    let lease = fabric.begin_execution(task_id, worker).unwrap();
    fabric.reap_expired_executions_at(lease.expires_at_unix_ms);
    assert_eq!(
        fabric.cooperative_job_status(job_id),
        Some(CooperativeJobStatus::Uncertain)
    );
}

#[test]
fn logical_role_waits_until_a_compatible_resource_joins() {
    let mut fabric = Fabric::new(10_000, 10_000);
    let job_id = JobId::new();
    fabric
        .submit_logical(LogicalJobSpec {
            id: job_id,
            roles: vec![LogicalRoleSpec {
                reduction: None,
                shards: default_role_shards(),
                name: "compute".into(),
                implementations: vec![logical_implementation(
                    "specialized",
                    "backend:special",
                    10.0,
                    1,
                )],
                depends_on: vec![],
            }],
            outputs: vec!["compute".into()],
        })
        .unwrap();

    let view = fabric.cooperative_role_views(job_id).unwrap();
    assert_eq!(view[0].status, CooperativeRoleStatus::Ready);
    assert!(fabric.pending_task_ids().is_empty());

    let worker = ResourceId::new();
    let mut descriptor = resource(worker);
    descriptor.features.insert("backend:special".into());
    fabric.register_resource(descriptor);
    fabric.refresh_ready_roles().unwrap();

    let view = fabric.cooperative_role_views(job_id).unwrap();
    assert!(matches!(
        view[0].status,
        CooperativeRoleStatus::Submitted(_)
    ));
    assert_eq!(view[0].implementation.as_deref(), Some("specialized"));
    assert_eq!(view[0].planned_resource, Some(worker));
}

#[test]
fn downstream_logical_role_replans_when_a_better_resource_joins_before_readiness() {
    let mut fabric = Fabric::new(10_000, 10_000);
    let left = ResourceId::new();
    let mut left_resource = resource(left);
    left_resource
        .features
        .extend(&NameSet::from_list(vec!["role:root".to_owned(), "join:slow".to_owned()]));
    fabric.register_resource(left_resource);

    let job_id = JobId::new();
    let logical = LogicalJobSpec {
        id: job_id,
        roles: vec![
            LogicalRoleSpec {
                reduction: None,
                shards: default_role_shards(),
                name: "root".into(),
                implementations: vec![logical_implementation(
                    "root-left",
                    "role:root",
                    100.0,
                    1,
                )],
                depends_on: vec![],
            },
            LogicalRoleSpec {
                reduction: None,
                shards: default_role_shards(),
                name: "join".into(),
                implementations: vec![
                    logical_implementation("slow-left", "join:slow", 1_000.0, 1),
                    logical_implementation("fast-new", "join:fast", 10.0, 1),
                ],
                depends_on: vec!["root".into()],
            },
        ],
        outputs: vec!["join".into()],
    };

    let preview = fabric.plan_logical_job(&logical).unwrap();
    assert_eq!(preview.roles[1].shards[0].implementation, "slow-left");
    fabric.submit_logical(logical).unwrap();

    let root_task = fabric.pending_task_ids()[0];
    let root_lease = fabric.begin_execution(root_task, left).unwrap();

    let newcomer = ResourceId::new();
    let mut newcomer_resource = resource(newcomer);
    newcomer_resource.features.insert("join:fast".into());
    fabric.register_resource(newcomer_resource);
    fabric.upsert_link(LinkProfile {
        from: left,
        to: newcomer,
        rtt_ms: binary(1.0),
        bandwidth_mbps: binary(10_000.0),
    });

    fabric
        .complete_execution(
            &root_lease,
            vec![ObjectMetadata {
                id: ObjectId::new(),
                size_bytes: 1,
                digest: Some("sha256:root".into()),
                encoding: None,
                locations: vec![left],
                producer: Some(root_task),
            }],
        )
        .unwrap();

    let join = fabric
        .cooperative_role_views(job_id)
        .unwrap()
        .into_iter()
        .find(|role| role.name == "join")
        .unwrap();
    assert_eq!(join.implementation.as_deref(), Some("fast-new"));
    assert_eq!(join.planned_resource, Some(newcomer));
    assert!(matches!(join.status, CooperativeRoleStatus::Submitted(_)));
}
