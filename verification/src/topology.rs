//! Links between resources and the time that transfers over them take.

use vstd::prelude::*;

use crate::binary64::Binary64;
use crate::ids::ResourceId;

verus! {

#[derive(Clone, Copy, Debug, PartialEq)]
pub struct LinkProfile {
    pub from: ResourceId,
    pub to: ResourceId,
    pub rtt_ms: Binary64,
    pub bandwidth_mbps: Binary64,
}

impl LinkProfile {
    /// Whether the link joins two resources, in either direction.
    pub open spec fn joins(self, a: ResourceId, b: ResourceId) -> bool {
        (self.from == a && self.to == b) || (self.from == b && self.to == a)
    }

    /// Bandwidth in bytes per millisecond.
    pub open spec fn bytes_per_ms(self) -> Binary64 {
        self.bandwidth_mbps.product(Binary64::nearest_to(1_000_000)).quotient(
            Binary64::nearest_to(8),
        ).quotient(Binary64::nearest_to(1_000))
    }

    /// Round-trip time plus bytes over bandwidth; a link without bandwidth, or with a negative
    /// round-trip time, carries nothing.
    pub open spec fn transfer_time(self, bytes: u64) -> Option<Binary64> {
        if self.bandwidth_mbps.at_most(Binary64 { bits: 0 }) || self.rtt_ms.less(
            Binary64 { bits: 0 },
        ) {
            None
        } else {
            Some(self.rtt_ms.sum(Binary64::nearest_to(bytes as nat).quotient(self.bytes_per_ms())))
        }
    }

    pub fn transfer_time_ms(&self, bytes: u64) -> (r: Option<Binary64>)
        ensures
            r == self.transfer_time(bytes),
    {
        if self.bandwidth_mbps.le(Binary64::from_bits(0)) || self.rtt_ms.lt(Binary64::from_bits(0)) {
            return None;
        }
        let bytes_per_ms = self.bandwidth_mbps.mul(Binary64::from_u64(1_000_000)).div(
            Binary64::from_u64(8),
        ).div(Binary64::from_u64(1_000));
        Some(self.rtt_ms.add(Binary64::from_u64(bytes).div(bytes_per_ms)))
    }

    pub fn latency_domain(&self) -> (r: LatencyDomain)
        ensures
            r == LatencyDomain::of(self.rtt_ms),
    {
        LatencyDomain::from_rtt_ms(self.rtt_ms)
    }
}

/// Classes of round-trip time, from the same machine (`L0`) to the far side of the world (`L5`).
#[derive(Clone, Copy, Debug, PartialEq, Eq, Structural, PartialOrd, Ord)]
pub enum LatencyDomain {
    L0,
    L1,
    L2,
    L3,
    L4,
    L5,
}

impl LatencyDomain {
    /// Upper bounds 0.01, 0.2, 2, 20 and 200 milliseconds; what is not a number is farthest.
    pub open spec fn of(rtt_ms: Binary64) -> LatencyDomain {
        if rtt_ms.less(Binary64::nearest_to(1).quotient(Binary64::nearest_to(100))) {
            LatencyDomain::L0
        } else if rtt_ms.less(Binary64::nearest_to(1).quotient(Binary64::nearest_to(5))) {
            LatencyDomain::L1
        } else if rtt_ms.less(Binary64::nearest_to(2)) {
            LatencyDomain::L2
        } else if rtt_ms.less(Binary64::nearest_to(20)) {
            LatencyDomain::L3
        } else if rtt_ms.less(Binary64::nearest_to(200)) {
            LatencyDomain::L4
        } else {
            LatencyDomain::L5
        }
    }

    pub fn from_rtt_ms(rtt_ms: Binary64) -> (r: LatencyDomain)
        ensures
            r == LatencyDomain::of(rtt_ms),
    {
        if rtt_ms.lt(Binary64::from_u64(1).div(Binary64::from_u64(100))) {
            LatencyDomain::L0
        } else if rtt_ms.lt(Binary64::from_u64(1).div(Binary64::from_u64(5))) {
            LatencyDomain::L1
        } else if rtt_ms.lt(Binary64::from_u64(2)) {
            LatencyDomain::L2
        } else if rtt_ms.lt(Binary64::from_u64(20)) {
            LatencyDomain::L3
        } else if rtt_ms.lt(Binary64::from_u64(200)) {
            LatencyDomain::L4
        } else {
            LatencyDomain::L5
        }
    }
}

/// The first link from position `i` on that joins two resources.
pub open spec fn link_from(links: Seq<LinkProfile>, i: int, a: ResourceId, b: ResourceId) -> Option<
    LinkProfile,
>
    decreases links.len() - i,
{
    if i < 0 || i >= links.len() {
        None
    } else if links[i].joins(a, b) {
        Some(links[i])
    } else {
        link_from(links, i + 1, a, b)
    }
}

/// The link that joins two resources.
pub open spec fn link_between(links: Seq<LinkProfile>, a: ResourceId, b: ResourceId) -> Option<
    LinkProfile,
> {
    link_from(links, 0, a, b)
}

/// The time that a transfer takes: none on the spot, that of the link elsewhere.
pub open spec fn transfer_between(
    links: Seq<LinkProfile>,
    a: ResourceId,
    b: ResourceId,
    bytes: u64,
) -> Option<Binary64> {
    if a == b {
        Some(Binary64 { bits: 0 })
    } else {
        match link_between(links, a, b) {
            Some(link) => link.transfer_time(bytes),
            None => None,
        }
    }
}

#[derive(Debug, PartialEq)]
pub struct TopologySnapshot {
    pub links: Vec<LinkProfile>,
}

impl View for TopologySnapshot {
    type V = Seq<LinkProfile>;

    open spec fn view(&self) -> Seq<LinkProfile> {
        self.links@
    }
}

impl Clone for TopologySnapshot {
    fn clone(&self) -> (r: TopologySnapshot)
        ensures
            r@ == self@,
    {
        TopologySnapshot { links: self.links.clone() }
    }
}

impl Default for TopologySnapshot {
    fn default() -> (r: TopologySnapshot)
        ensures
            r@ == Seq::<LinkProfile>::empty(),
    {
        TopologySnapshot { links: Vec::new() }
    }
}

impl TopologySnapshot {
    pub fn link(&self, a: ResourceId, b: ResourceId) -> (r: Option<&LinkProfile>)
        ensures
            match r {
                Some(link) => link_between(self@, a, b) == Some(*link),
                None => link_between(self@, a, b) is None,
            },
    {
        let mut i: usize = 0;
        while i < self.links.len()
            invariant
                i <= self.links@.len(),
                link_between(self@, a, b) == link_from(self@, i as int, a, b),
            decreases self.links@.len() - i,
        {
            let link = &self.links[i];
            if (link.from == a && link.to == b) || (link.from == b && link.to == a) {
                return Some(link);
            }
            i = i + 1;
        }
        None
    }

    pub fn transfer_time_ms(&self, a: ResourceId, b: ResourceId, bytes: u64) -> (r: Option<Binary64>)
        ensures
            r == transfer_between(self@, a, b, bytes),
    {
        if a == b {
            return Some(Binary64::from_bits(0));
        }
        match self.link(a, b) {
            Some(link) => link.transfer_time_ms(bytes),
            None => None,
        }
    }
}

/// Links have no direction: asked either way round, the same link answers.
pub proof fn law_links_are_symmetric(links: Seq<LinkProfile>, a: ResourceId, b: ResourceId, bytes: u64)
    ensures
        link_between(links, a, b) == link_between(links, b, a),
        transfer_between(links, a, b, bytes) == transfer_between(links, b, a, bytes),
{
    lemma_link_from_symmetric(links, 0, a, b);
}

proof fn lemma_link_from_symmetric(links: Seq<LinkProfile>, i: int, a: ResourceId, b: ResourceId)
    ensures
        link_from(links, i, a, b) == link_from(links, i, b, a),
    decreases links.len() - i,
{
    if 0 <= i < links.len() && !links[i].joins(a, b) {
        lemma_link_from_symmetric(links, i + 1, a, b);
    }
}

/// The link between two resources is the first that joins them, in whichever direction it is given;
/// there is none only if no link joins them.
pub proof fn law_the_first_link_counts(links: Seq<LinkProfile>, a: ResourceId, b: ResourceId)
    ensures
        match link_between(links, a, b) {
            Some(link) => exists|j: int|
                0 <= j < links.len() && #[trigger] links[j] == link && link.joins(a, b) && forall|k: int|
                    0 <= k < j ==> !(#[trigger] links[k]).joins(a, b),
            None => forall|j: int| 0 <= j < links.len() ==> !(#[trigger] links[j]).joins(a, b),
        },
{
    lemma_link_from(links, 0, a, b);
}

proof fn lemma_link_from(links: Seq<LinkProfile>, i: int, a: ResourceId, b: ResourceId)
    requires
        0 <= i <= links.len(),
    ensures
        match link_from(links, i, a, b) {
            Some(link) => exists|j: int|
                i <= j < links.len() && #[trigger] links[j] == link && link.joins(a, b) && forall|k: int|
                    i <= k < j ==> !(#[trigger] links[k]).joins(a, b),
            None => forall|j: int| i <= j < links.len() ==> !(#[trigger] links[j]).joins(a, b),
        },
    decreases links.len() - i,
{
    if i < links.len() && !links[i].joins(a, b) {
        lemma_link_from(links, i + 1, a, b);
        if let Some(link) = link_from(links, i + 1, a, b) {
            let j = choose|j: int|
                i + 1 <= j < links.len() && #[trigger] links[j] == link && link.joins(a, b) && forall|
                    k: int,
                |
                    i + 1 <= k < j ==> !(#[trigger] links[k]).joins(a, b);
            assert(links[j] == link);
        }
    }
}

}
