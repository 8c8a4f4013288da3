use plurifold::binary64::Binary64;
use plurifold::clock::now_unix_ms;
use plurifold::collections::NameSet;
use plurifold::ids::{ExecutionId, JobId, ObjectId, ResourceId, TaskId};
use plurifold::resources::{
    Accelerator, AcceleratorKind, AcceleratorRequirement, Architecture, ResourceDescriptor,
    ResourceRequirements,
};
use plurifold::tasks::EffectSemantics;
use plurifold::topology::{LatencyDomain, LinkProfile, TopologySnapshot};

fn domain(rtt_ms: f64) -> LatencyDomain {
    LatencyDomain::from_rtt_ms(Binary64::from_bits(rtt_ms.to_bits()))
}

#[test]
fn classifies_latency_domains() {
    assert_eq!(domain(0.001), LatencyDomain::L0);
    assert_eq!(domain(1.0), LatencyDomain::L2);
    assert_eq!(domain(80.0), LatencyDomain::L4);
    assert_eq!(domain(250.0), LatencyDomain::L5);
}

#[test]
fn exclusive_effects_are_not_automatically_retryable() {
    assert!(!EffectSemantics::Exclusive.automatically_retryable());
    assert!(EffectSemantics::Pure.automatically_retryable());
}

#[test]
fn idempotent_effects_are_automatically_retryable() {
    assert!(EffectSemantics::Idempotent { key: "k".into() }.automatically_retryable());
}

#[test]
fn latency_domains_begin_at_their_bounds() {
    assert_eq!(domain(0.01), LatencyDomain::L1);
    assert_eq!(domain(0.2), LatencyDomain::L2);
    assert_eq!(domain(2.0), LatencyDomain::L3);
    assert_eq!(domain(20.0), LatencyDomain::L4);
    assert_eq!(domain(200.0), LatencyDomain::L5);
    assert_eq!(domain(f64::NAN), LatencyDomain::L5);
}

fn link(from: ResourceId, to: ResourceId, rtt_ms: f64, bandwidth_mbps: f64) -> LinkProfile {
    LinkProfile {
        from,
        to,
        rtt_ms: Binary64::from_bits(rtt_ms.to_bits()),
        bandwidth_mbps: Binary64::from_bits(bandwidth_mbps.to_bits()),
    }
}

#[test]
fn transfer_times_add_latency_and_serialization() {
    let a = ResourceId::new();
    let b = ResourceId::new();
    let time = link(a, b, 80.0, 100.0).transfer_time_ms(1 << 20).unwrap();
    let bytes_per_ms = 100.0 * 1_000_000.0 / 8.0 / 1_000.0;
    assert_eq!(f64::from_bits(time.to_bits()), 80.0 + (1 << 20) as f64 / bytes_per_ms);
    assert_eq!(link(a, b, -1.0, 100.0).transfer_time_ms(1), None);
    assert_eq!(link(a, b, 1.0, 0.0).transfer_time_ms(1), None);
    assert_eq!(link(a, b, 150.0, 1.0).latency_domain(), LatencyDomain::L4);
}

#[test]
fn links_serve_both_directions() {
    let a = ResourceId::new();
    let b = ResourceId::new();
    let topology = TopologySnapshot { links: vec![link(a, b, 1.0, 8.0)] };
    assert_eq!(topology.transfer_time_ms(a, b, 10), topology.transfer_time_ms(b, a, 10));
    assert_eq!(
        topology.transfer_time_ms(a, b, 10).map(|t| f64::from_bits(t.to_bits())),
        Some(1.01)
    );
    assert_eq!(
        topology.transfer_time_ms(a, a, 10).map(|t| f64::from_bits(t.to_bits())),
        Some(0.0)
    );
    assert_eq!(topology.transfer_time_ms(a, ResourceId::new(), 10), None);
}

fn machine() -> ResourceDescriptor {
    ResourceDescriptor {
        id: ResourceId::new(),
        epoch: 1,
        architecture: Architecture::Aarch64,
        cpu_cores: 8,
        memory_bytes: 1_000,
        accelerators: vec![Accelerator {
            kind: AcceleratorKind::NvidiaGpu,
            count: 2,
            memory_bytes_per_device: 500,
        }],
        features: NameSet::from_list(vec!["wasi:0.3".into()]),
        performance_score: Binary64::from_u64(1),
        queue_delay_ms: Binary64::from_u64(0),
        startup_delay_ms: Binary64::from_u64(0),
        failure_probability: Binary64::from_u64(0),
    }
}

#[test]
fn requirements_are_met_together_or_not_at_all() {
    let met = || ResourceRequirements {
        architecture: Some(Architecture::Aarch64),
        min_memory_bytes: 1_000,
        accelerator: Some(AcceleratorRequirement {
            kind: AcceleratorKind::NvidiaGpu,
            min_count: 2,
            min_memory_bytes_per_device: 500,
        }),
        required_features: NameSet::from_list(vec!["wasi:0.3".into()]),
    };
    assert!(machine().supports(&met()));
    assert!(machine().supports(&ResourceRequirements::default()));
    assert!(!machine().supports(&ResourceRequirements {
        architecture: Some(Architecture::X86_64),
        ..met()
    }));
    assert!(!machine().supports(&ResourceRequirements { min_memory_bytes: 1_001, ..met() }));
    assert!(!machine().supports(&ResourceRequirements {
        accelerator: Some(AcceleratorRequirement {
            kind: AcceleratorKind::NvidiaGpu,
            min_count: 3,
            min_memory_bytes_per_device: 500,
        }),
        ..met()
    }));
    assert!(!machine().supports(&ResourceRequirements {
        required_features: NameSet::from_list(vec!["wasi:0.3".into(), "cuda:13".into()]),
        ..met()
    }));
    let mut idle = machine();
    idle.performance_score = Binary64::from_u64(0);
    assert!(!idle.supports(&met()));
}

#[test]
fn identifiers_are_written_and_read_as_hyphenated_uuids() {
    let id = TaskId(0x0123_4567_89ab_4def_8123_4567_89ab_cdef);
    assert_eq!(id.text(), "01234567-89ab-4def-8123-456789abcdef");
    assert_eq!(TaskId::parse("01234567-89ab-4def-8123-456789abcdef"), Ok(id));
    assert_eq!("{01234567-89AB-4DEF-8123-456789ABCDEF}".parse::<TaskId>(), Ok(id));
    assert_eq!(JobId::parse("0123456789ab4def8123456789abcdef"), Ok(JobId(id.0)));
    assert!(ObjectId::parse("not-an-identifier").is_err());
    assert!(!ResourceId::parse("zz").unwrap_err().message.is_empty());
    assert_eq!(ExecutionId::parse(&id.text()).map(|read| read.0), Ok(id.0));
}

#[test]
fn new_identifiers_are_random_uuids() {
    let first = ObjectId::new();
    let second = ObjectId::default();
    assert_ne!(first, second);
    assert_eq!((first.0 >> 76) & 0xf, 4);
    assert_eq!((first.0 >> 62) & 0x3, 2);
    assert_eq!(ObjectId::parse(&second.text()), Ok(second));
}

#[test]
fn the_clock_counts_milliseconds_since_the_epoch() {
    let now = now_unix_ms();
    assert!(now > 1_600_000_000_000);
    assert!(now_unix_ms() >= now);
}
