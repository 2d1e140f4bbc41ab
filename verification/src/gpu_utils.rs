use vstd::prelude::*;

verus! {

/// The kind of a physical device, as the driver reports it.
#[derive(Debug, Clone, Copy, PartialEq, Eq)]
pub enum DeviceKind {
    DiscreteGpu,
    IntegratedGpu,
    VirtualGpu,
    Cpu,
    Other,
    Unrecognized,
}

/// What the device choice reads of a physical device.
#[derive(Debug, Clone)]
pub struct DeviceCandidate {
    pub kind: DeviceKind,
    /// Whether the device supports the extensions the solver needs.
    pub has_extensions: bool,
    /// For each queue family in order, whether it supports compute.
    pub compute_families: Vec<bool>,
}

/// The preference of a kind of device: lower is preferred.
pub open spec fn kind_rank(kind: DeviceKind) -> nat {
    match kind {
        DeviceKind::DiscreteGpu => 0,
        DeviceKind::IntegratedGpu => 1,
        DeviceKind::VirtualGpu => 2,
        DeviceKind::Cpu => 3,
        DeviceKind::Other => 4,
        DeviceKind::Unrecognized => 5,
    }
}

/// The preference of a kind of device: lower is preferred.
pub fn device_rank(kind: DeviceKind) -> (rank: u32)
    ensures
        rank == kind_rank(kind),
{
    match kind {
        DeviceKind::DiscreteGpu => 0,
        DeviceKind::IntegratedGpu => 1,
        DeviceKind::VirtualGpu => 2,
        DeviceKind::Cpu => 3,
        DeviceKind::Other => 4,
        DeviceKind::Unrecognized => 5,
    }
}

/// `q` is the first queue family of `families` that supports compute.
pub open spec fn is_first_compute(families: Seq<bool>, q: int) -> bool {
    &&& 0 <= q < families.len()
    &&& families[q]
    &&& forall|p: int| 0 <= p < q ==> !#[trigger] families[p]
}

/// The device supports the extensions and has a compute queue family.
pub open spec fn is_eligible(c: DeviceCandidate) -> bool {
    &&& c.has_extensions
    &&& exists|q: int| 0 <= q < c.compute_families@.len() && #[trigger] c.compute_families@[q]
}

/// Which devices may be chosen does not depend on their kind: a device is
/// eligible exactly when it supports the extensions and has a queue family
/// that supports compute, whether it is a GPU, a CPU or anything else; the
/// kind only orders the eligible devices.
pub proof fn law_eligibility(c: DeviceCandidate, kind: DeviceKind)
    ensures
        is_eligible(c) <==> (c.has_extensions && exists|q: int|
            0 <= q < c.compute_families@.len() && #[trigger] c.compute_families@[q]),
        is_eligible(c) == is_eligible(
            DeviceCandidate {
                kind: kind,
                has_extensions: c.has_extensions,
                compute_families: c.compute_families,
            },
        ),
{
    let d = DeviceCandidate {
        kind: kind,
        has_extensions: c.has_extensions,
        compute_families: c.compute_families,
    };
    if is_eligible(c) {
        let q = choose|q: int| 0 <= q < c.compute_families@.len() && #[trigger] c.compute_families@[q];
        assert(d.compute_families@[q]);
    }
    if is_eligible(d) {
        let q = choose|q: int| 0 <= q < d.compute_families@.len() && #[trigger] d.compute_families@[q];
        assert(c.compute_families@[q]);
    }
}

/// The index of the first queue family that supports compute, if any.
fn first_compute_family(families: &Vec<bool>) -> (q: Option<usize>)
    ensures
        q matches Some(q) ==> is_first_compute(families@, q as int),
        q is None ==> forall|p: int| 0 <= p < families@.len() ==> !#[trigger] families@[p],
{
    let n = families.len();
    for p in 0..n
        invariant
            n == families@.len(),
            forall|r: int| 0 <= r < p ==> !#[trigger] families@[r],
    {
        if families[p] {
            return Some(p);
        }
    }
    None
}

/// Chooses the device to compute on: among the devices that support the
/// extensions and have a compute queue family, the first one of the most
/// preferred kind, with its first compute queue family.
pub fn select_device(candidates: &Vec<DeviceCandidate>) -> (choice: Option<(usize, u32)>)
    requires
        forall|d: int|
            0 <= d < candidates@.len() ==> #[trigger] candidates@[d].compute_families@.len() <= u32::MAX,
    ensures
        choice is None <==> forall|d: int| 0 <= d < candidates@.len() ==> !is_eligible(#[trigger] candidates@[d]),
        choice is None <==> forall|d: int, q: int|
            0 <= d < candidates@.len() && 0 <= q < candidates@[d].compute_families@.len()
                ==> !(candidates@[d].has_extensions && #[trigger] candidates@[d].compute_families@[q]),
        choice matches Some((d, q)) ==> {
            &&& d < candidates@.len()
            &&& is_eligible(candidates@[d as int])
            &&& is_first_compute(candidates@[d as int].compute_families@, q as int)
            &&& forall|e: int|
                0 <= e < candidates@.len() && is_eligible(#[trigger] candidates@[e]) ==> kind_rank(
                    candidates@[d as int].kind,
                ) <= kind_rank(candidates@[e].kind)
            &&& forall|e: int|
                0 <= e < d && is_eligible(#[trigger] candidates@[e]) ==> kind_rank(
                    candidates@[d as int].kind,
                ) < kind_rank(candidates@[e].kind)
        },
{
    let mut best: Option<(usize, u32, u32)> = None;
    let n = candidates.len();
    for i in 0..n
        invariant
            n == candidates@.len(),
            forall|d: int|
                0 <= d < candidates@.len() ==> #[trigger] candidates@[d].compute_families@.len()
                    <= u32::MAX,
            best is None <==> forall|d: int| 0 <= d < i ==> !is_eligible(#[trigger] candidates@[d]),
            best matches Some((d, q, r)) ==> {
                &&& d < i
                &&& r == kind_rank(candidates@[d as int].kind)
                &&& is_eligible(candidates@[d as int])
                &&& is_first_compute(candidates@[d as int].compute_families@, q as int)
                &&& forall|e: int|
                    0 <= e < i && is_eligible(#[trigger] candidates@[e]) ==> r <= kind_rank(
                        candidates@[e].kind,
                    )
                &&& forall|e: int|
                    0 <= e < d && is_eligible(#[trigger] candidates@[e]) ==> r < kind_rank(
                        candidates@[e].kind,
                    )
            },
    {
        let c = &candidates[i];
        if c.has_extensions {
            match first_compute_family(&c.compute_families) {
                Some(q) => {
                    let rank = device_rank(c.kind);
                    let better = match best {
                        None => true,
                        Some((_, _, r)) => rank < r,
                    };
                    if better {
                        best = Some((i, q as u32, rank));
                    }
                },
                None => {
                    assert(!is_eligible(candidates@[i as int]));
                },
            }
        } else {
            assert(!is_eligible(candidates@[i as int]));
        }
    }
    match best {
        Some((d, q, _)) => Some((d, q)),
        None => None,
    }
}

} // verus!
