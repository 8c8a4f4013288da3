//! Placement, planning and leasing for elastic heterogeneous compute.

pub mod agent_laws;
pub mod binary64;
pub mod binary64_laws;
pub mod chain_laws;
pub mod chains;
pub mod clock;
pub mod collections;
pub mod coordinator;
pub mod coordinator_laws;
pub mod coordinator_model;
pub mod execution_laws;
pub mod fabric;
pub mod fabric_laws;
pub mod fabric_model;
pub mod fetch;
pub mod fusion;
pub mod fusion_laws;
pub mod ids;
pub mod jobs;
pub mod link_laws;
pub mod materialization_laws;
pub mod membership_laws;
pub mod objects;
pub mod operation_laws;
pub mod operations;
pub mod placement_laws;
pub mod plan_laws;
pub mod planner;
pub mod planner_laws;
pub mod protocol;
pub mod reduction;
pub mod reduction_plan;
pub mod resources;
pub mod role_graph;
pub mod role_laws;
pub mod scheduler;
pub mod shard_laws;
pub mod shard_placement_laws;
pub mod shards;
pub mod status;
pub mod store;
pub mod task_laws;
pub mod tasks;
pub mod text;
pub mod text_laws;
pub mod topology;
pub mod transfer;
pub mod transfer_laws;
pub mod validation;
pub mod worker;
