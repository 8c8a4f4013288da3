//! Resources: what they offer and what work may require of them.

use vstd::prelude::*;

use crate::binary64::Binary64;
use crate::collections::NameSet;
use crate::ids::ResourceId;

verus! {

#[derive(Debug, PartialEq, Eq)]
pub enum Architecture {
    X86_64,
    Aarch64,
    RiscV64,
    Other(String),
}

pub enum ArchitectureModel {
    X86_64,
    Aarch64,
    RiscV64,
    Other(Seq<char>),
}

impl View for Architecture {
    type V = ArchitectureModel;

    open spec fn view(&self) -> ArchitectureModel {
        match self {
            Architecture::X86_64 => ArchitectureModel::X86_64,
            Architecture::Aarch64 => ArchitectureModel::Aarch64,
            Architecture::RiscV64 => ArchitectureModel::RiscV64,
            Architecture::Other(name) => ArchitectureModel::Other(name@),
        }
    }
}

impl Clone for Architecture {
    fn clone(&self) -> (r: Architecture)
        ensures
            r@ == self@,
    {
        match self {
            Architecture::X86_64 => Architecture::X86_64,
            Architecture::Aarch64 => Architecture::Aarch64,
            Architecture::RiscV64 => Architecture::RiscV64,
            Architecture::Other(name) => Architecture::Other(name.clone()),
        }
    }
}

impl Architecture {
    pub fn same(&self, other: &Architecture) -> (r: bool)
        ensures
            r == (self@ == other@),
    {
        match (self, other) {
            (Architecture::X86_64, Architecture::X86_64) => true,
            (Architecture::Aarch64, Architecture::Aarch64) => true,
            (Architecture::RiscV64, Architecture::RiscV64) => true,
            (Architecture::Other(a), Architecture::Other(b)) => *a == *b,
            _ => false,
        }
    }
}

#[derive(Debug, PartialEq, Eq)]
pub enum AcceleratorKind {
    NvidiaGpu,
    AmdGpu,
    AscendNpu,
    Tpu,
    Fpga,
    Other(String),
}

pub enum AcceleratorKindModel {
    NvidiaGpu,
    AmdGpu,
    AscendNpu,
    Tpu,
    Fpga,
    Other(Seq<char>),
}

impl View for AcceleratorKind {
    type V = AcceleratorKindModel;

    open spec fn view(&self) -> AcceleratorKindModel {
        match self {
            AcceleratorKind::NvidiaGpu => AcceleratorKindModel::NvidiaGpu,
            AcceleratorKind::AmdGpu => AcceleratorKindModel::AmdGpu,
            AcceleratorKind::AscendNpu => AcceleratorKindModel::AscendNpu,
            AcceleratorKind::Tpu => AcceleratorKindModel::Tpu,
            AcceleratorKind::Fpga => AcceleratorKindModel::Fpga,
            AcceleratorKind::Other(name) => AcceleratorKindModel::Other(name@),
        }
    }
}

impl Clone for AcceleratorKind {
    fn clone(&self) -> (r: AcceleratorKind)
        ensures
            r@ == self@,
    {
        match self {
            AcceleratorKind::NvidiaGpu => AcceleratorKind::NvidiaGpu,
            AcceleratorKind::AmdGpu => AcceleratorKind::AmdGpu,
            AcceleratorKind::AscendNpu => AcceleratorKind::AscendNpu,
            AcceleratorKind::Tpu => AcceleratorKind::Tpu,
            AcceleratorKind::Fpga => AcceleratorKind::Fpga,
            AcceleratorKind::Other(name) => AcceleratorKind::Other(name.clone()),
        }
    }
}

impl AcceleratorKind {
    pub fn same(&self, other: &AcceleratorKind) -> (r: bool)
        ensures
            r == (self@ == other@),
    {
        match (self, other) {
            (AcceleratorKind::NvidiaGpu, AcceleratorKind::NvidiaGpu) => true,
            (AcceleratorKind::AmdGpu, AcceleratorKind::AmdGpu) => true,
            (AcceleratorKind::AscendNpu, AcceleratorKind::AscendNpu) => true,
            (AcceleratorKind::Tpu, AcceleratorKind::Tpu) => true,
            (AcceleratorKind::Fpga, AcceleratorKind::Fpga) => true,
            (AcceleratorKind::Other(a), AcceleratorKind::Other(b)) => *a == *b,
            _ => false,
        }
    }
}

#[derive(Debug, PartialEq)]
pub struct Accelerator {
    pub kind: AcceleratorKind,
    pub count: u32,
    pub memory_bytes_per_device: u64,
}

pub struct AcceleratorModel {
    pub kind: AcceleratorKindModel,
    pub count: u32,
    pub memory_bytes_per_device: u64,
}

impl View for Accelerator {
    type V = AcceleratorModel;

    open spec fn view(&self) -> AcceleratorModel {
        AcceleratorModel {
            kind: self.kind@,
            count: self.count,
            memory_bytes_per_device: self.memory_bytes_per_device,
        }
    }
}

impl Clone for Accelerator {
    fn clone(&self) -> (r: Accelerator)
        ensures
            r@ == self@,
    {
        Accelerator {
            kind: self.kind.clone(),
            count: self.count,
            memory_bytes_per_device: self.memory_bytes_per_device,
        }
    }
}

#[derive(Debug, PartialEq)]
pub struct AcceleratorRequirement {
    pub kind: AcceleratorKind,
    pub min_count: u32,
    pub min_memory_bytes_per_device: u64,
}

pub struct AcceleratorRequirementModel {
    pub kind: AcceleratorKindModel,
    pub min_count: u32,
    pub min_memory_bytes_per_device: u64,
}

impl View for AcceleratorRequirement {
    type V = AcceleratorRequirementModel;

    open spec fn view(&self) -> AcceleratorRequirementModel {
        AcceleratorRequirementModel {
            kind: self.kind@,
            min_count: self.min_count,
            min_memory_bytes_per_device: self.min_memory_bytes_per_device,
        }
    }
}

impl Clone for AcceleratorRequirement {
    fn clone(&self) -> (r: AcceleratorRequirement)
        ensures
            r@ == self@,
    {
        AcceleratorRequirement {
            kind: self.kind.clone(),
            min_count: self.min_count,
            min_memory_bytes_per_device: self.min_memory_bytes_per_device,
        }
    }
}

impl AcceleratorRequirementModel {
    /// A device group that meets the requirement.
    pub open spec fn met_by(self, offered: AcceleratorModel) -> bool {
        &&& offered.kind == self.kind
        &&& offered.count >= self.min_count
        &&& offered.memory_bytes_per_device >= self.min_memory_bytes_per_device
    }
}

/// Hard requirements: a resource that misses one of them is no candidate.
#[derive(Debug, PartialEq)]
pub struct ResourceRequirements {
    pub architecture: Option<Architecture>,
    pub min_memory_bytes: u64,
    pub accelerator: Option<AcceleratorRequirement>,
    pub required_features: NameSet,
}

pub struct RequirementsModel {
    pub architecture: Option<ArchitectureModel>,
    pub min_memory_bytes: u64,
    pub accelerator: Option<AcceleratorRequirementModel>,
    pub required_features: Set<Seq<char>>,
}

impl View for ResourceRequirements {
    type V = RequirementsModel;

    open spec fn view(&self) -> RequirementsModel {
        RequirementsModel {
            architecture: crate::text::view_of(self.architecture),
            min_memory_bytes: self.min_memory_bytes,
            accelerator: crate::text::view_of(self.accelerator),
            required_features: self.required_features@,
        }
    }
}

impl Clone for ResourceRequirements {
    fn clone(&self) -> (r: ResourceRequirements)
        ensures
            r@ == self@,
    {
        ResourceRequirements {
            architecture: self.architecture.clone(),
            min_memory_bytes: self.min_memory_bytes,
            accelerator: self.accelerator.clone(),
            required_features: self.required_features.clone(),
        }
    }
}

impl RequirementsModel {
    /// The requirements that every positive-performance resource meets.
    pub open spec fn none() -> RequirementsModel {
        RequirementsModel {
            architecture: None,
            min_memory_bytes: 0,
            accelerator: None,
            required_features: Set::empty(),
        }
    }
}

impl Default for ResourceRequirements {
    fn default() -> (r: ResourceRequirements)
        ensures
            r@ == RequirementsModel::none(),
    {
        ResourceRequirements {
            architecture: None,
            min_memory_bytes: 0,
            accelerator: None,
            required_features: NameSet::new(),
        }
    }
}

#[derive(Debug, PartialEq)]
pub struct ResourceDescriptor {
    pub id: ResourceId,
    /// Incremented whenever a logical resource agent restarts or registers again.
    pub epoch: u64,
    pub architecture: Architecture,
    pub cpu_cores: u32,
    pub memory_bytes: u64,
    pub accelerators: Vec<Accelerator>,
    /// Extensible executor and backend capabilities, such as `wasi:0.3`, `cuda:13`, `cann:8`.
    pub features: NameSet,
    /// Relative to an arbitrary reference machine. Must be positive for scheduling.
    pub performance_score: Binary64,
    pub queue_delay_ms: Binary64,
    pub startup_delay_ms: Binary64,
    /// Estimated probability of losing the resource during a representative task horizon.
    pub failure_probability: Binary64,
}

pub struct ResourceModel {
    pub id: ResourceId,
    pub epoch: u64,
    pub architecture: ArchitectureModel,
    pub cpu_cores: u32,
    pub memory_bytes: u64,
    pub accelerators: Seq<AcceleratorModel>,
    pub features: Set<Seq<char>>,
    pub performance_score: Binary64,
    pub queue_delay_ms: Binary64,
    pub startup_delay_ms: Binary64,
    pub failure_probability: Binary64,
}

impl View for ResourceDescriptor {
    type V = ResourceModel;

    open spec fn view(&self) -> ResourceModel {
        ResourceModel {
            id: self.id,
            epoch: self.epoch,
            architecture: self.architecture@,
            cpu_cores: self.cpu_cores,
            memory_bytes: self.memory_bytes,
            accelerators: crate::text::views(self.accelerators@),
            features: self.features@,
            performance_score: self.performance_score,
            queue_delay_ms: self.queue_delay_ms,
            startup_delay_ms: self.startup_delay_ms,
            failure_probability: self.failure_probability,
        }
    }
}

impl Clone for ResourceDescriptor {
    fn clone(&self) -> (r: ResourceDescriptor)
        ensures
            r@ == self@,
    {
        let r = ResourceDescriptor {
            id: self.id,
            epoch: self.epoch,
            architecture: self.architecture.clone(),
            cpu_cores: self.cpu_cores,
            memory_bytes: self.memory_bytes,
            accelerators: self.accelerators.clone(),
            features: self.features.clone(),
            performance_score: self.performance_score,
            queue_delay_ms: self.queue_delay_ms,
            startup_delay_ms: self.startup_delay_ms,
            failure_probability: self.failure_probability,
        };
        assert(r@.accelerators =~= self@.accelerators);
        r
    }
}

impl ResourceModel {
    /// Whether the resource meets every hard requirement.
    pub open spec fn supported(self, requirements: RequirementsModel) -> bool {
        &&& !self.performance_score.at_most(Binary64 { bits: 0 })
        &&& self.memory_bytes >= requirements.min_memory_bytes
        &&& requirements.architecture matches Some(architecture) ==> self.architecture
            == architecture
        &&& requirements.required_features.subset_of(self.features)
        &&& requirements.accelerator matches Some(required) ==> exists|i: int|
            0 <= i < self.accelerators.len() && required.met_by(#[trigger] self.accelerators[i])
    }
}

impl ResourceDescriptor {
    pub fn supports(&self, requirements: &ResourceRequirements) -> (r: bool)
        ensures
            r == self@.supported(requirements@),
    {
        if self.performance_score.le(Binary64::from_bits(0)) || self.memory_bytes
            < requirements.min_memory_bytes {
            return false;
        }
        if let Some(architecture) = &requirements.architecture {
            if !self.architecture.same(architecture) {
                return false;
            }
        }
        if !requirements.required_features.is_subset(&self.features) {
            return false;
        }
        if let Some(required) = &requirements.accelerator {
            return self.has_accelerator(required);
        }
        true
    }

    fn has_accelerator(&self, required: &AcceleratorRequirement) -> (r: bool)
        ensures
            r == exists|i: int|
                0 <= i < self@.accelerators.len() && required@.met_by(#[trigger] self@.accelerators[i]),
    {
        let mut i: usize = 0;
        while i < self.accelerators.len()
            invariant
                i <= self.accelerators@.len(),
                forall|j: int| 0 <= j < i ==> !required@.met_by(#[trigger] self@.accelerators[j]),
            decreases self.accelerators@.len() - i,
        {
            let candidate = &self.accelerators[i];
            assert(self@.accelerators[i as int] == candidate@);
            if candidate.kind.same(&required.kind) && candidate.count >= required.min_count
                && candidate.memory_bytes_per_device >= required.min_memory_bytes_per_device {
                return true;
            }
            i = i + 1;
        }
        false
    }
}

/// A resource that meets some requirements also meets weaker ones.
pub proof fn law_supported_is_monotone(
    resource: ResourceModel,
    weaker: RequirementsModel,
    stronger: RequirementsModel,
)
    requires
        resource.supported(stronger),
        weaker.min_memory_bytes <= stronger.min_memory_bytes,
        weaker.architecture is None || weaker.architecture == stronger.architecture,
        weaker.required_features.subset_of(stronger.required_features),
        weaker.accelerator matches Some(w) ==> (stronger.accelerator matches Some(s) && w.kind == s.kind
            && w.min_count <= s.min_count && w.min_memory_bytes_per_device
            <= s.min_memory_bytes_per_device),
    ensures
        resource.supported(weaker),
{
    if let Some(w) = weaker.accelerator {
        let s = stronger.accelerator.unwrap();
        let i = choose|i: int|
            0 <= i < resource.accelerators.len() && s.met_by(#[trigger] resource.accelerators[i]);
        assert(w.met_by(resource.accelerators[i]));
    }
}

}
