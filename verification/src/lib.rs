//! Exclusive, OS-thread-pinnable groups of CPU cores.
//!
//! A registry ([`GroupedAllocator`]) owns a fixed partition of core ids into
//! groups, each guarded by an exclusive claim ([`Resource`]).  Allocation is
//! non-blocking: the first free group is claimed and handed out as a lease
//! ([`CoreGroup`]); binding a leased core pins the calling thread's affinity
//! to it and yields a scope guard ([`Cleanup`]) that restores the previous
//! affinity mask and the core's occupancy, unless it is detached.

mod allocators;
mod bind_core;
mod cpuset;
mod laws;
mod resource;

pub use allocators::{
    claim_step, occupy_step, same_state, spec_allowed, spec_bad_split, spec_first_free,
    spec_firsts, spec_id_sets, spec_keep, spec_opt_view, spec_seconds, spec_topo_groups,
    spec_unit_groups, unclaim_step, vacate_step, GroupedAllocator, HierarchicalAllocator,
    HierarchyLevel, NoAllocator, SequentialAllocator, Topology, TopologyUnit,
};
pub use bind_core::{bind_to_cpu_set, current_affinity, to_cpu_set};
pub use laws::{
    lemma_allocation_claims_one, lemma_bind_restore_roundtrip, lemma_claim_release_reclaim,
    lemma_claims_bounded, lemma_exhausted_allocator, lemma_first_free_congruent,
    spec_claimed_count,
};
pub use cpuset::{CpuSet, CPU_SET_CAPACITY};
pub use resource::{Resource, ResourceHandle};

use std::marker::PhantomData;
use std::rc::Rc;
use vstd::prelude::*;

verus! {

/// The ways an allocation, bind or construction step can fail.
#[derive(Clone, Copy, Debug, PartialEq, Eq, Structural)]
pub enum CoreError {
    /// The claimed resource is already held by someone else.
    WouldBlock,
    /// The requested core position does not exist in the lease.
    IndexOutOfRange,
    /// The target core's occupancy is already claimed.
    AlreadyBound,
    /// The OS affinity primitive failed; carries the raw error code.
    AffinityFailure(i32),
    /// The topology partitioning assumption was broken at build time.
    TopologyConstructionInvariantViolated,
}

/// A capability to hand out core-group leases, whatever the strategy behind
/// it is.
pub trait CoreAllocator {
    /// What must hold of the allocator before it hands out leases.
    spec fn allocator_inv(&self) -> bool;

    /// Non-blocking: a lease on a currently free group, or nothing when
    /// every candidate group is claimed.
    fn allocate_core(&mut self) -> Option<CoreGroup>
        requires
            old(self).allocator_inv(),
    ;
}

/// One logical core together with its own occupancy claim, tracked
/// independently of any group-level claim.
#[derive(Debug)]
pub struct ManagedCore {
    index: usize,
    taken: Resource,
}

impl ManagedCore {
    /// The core's id.
    pub closed spec fn spec_index(&self) -> usize {
        self.index
    }

    /// Whether the core's occupancy is currently claimed (bound or
    /// reserved).
    pub closed spec fn spec_occupied(&self) -> bool {
        self.taken.spec_taken()
    }

    pub fn new(index: usize) -> (r: ManagedCore)
        ensures
            r.spec_index() == index,
            !r.spec_occupied(),
    {
        ManagedCore { index, taken: Resource::new() }
    }

    pub fn get_raw(&self) -> (r: usize)
        ensures
            r == self.spec_index(),
    {
        self.index
    }

    /// Whether this core's occupancy is currently claimed.
    pub fn is_occupied(&self) -> (r: bool)
        ensures
            r == self.spec_occupied(),
    {
        self.taken.is_taken()
    }

    /// Claim this core's occupancy and bind the calling thread's affinity
    /// to it; the returned guard restores the prior mask and occupancy.
    pub fn bind(&mut self) -> (r: Result<Cleanup, CoreError>)
        requires
            old(self).spec_index() < CPU_SET_CAPACITY,
        ensures
            final(self).spec_index() == old(self).spec_index(),
            old(self).spec_occupied() ==> r == Err::<Cleanup, CoreError>(CoreError::AlreadyBound)
                && *final(self) == *old(self),
            !old(self).spec_occupied() ==> match r {
                Ok(cl) => final(self).spec_occupied() && cl.wf() && cl.spec_core() == Some(
                    old(self).spec_index(),
                ) && cl.spec_prior() is Some,
                Err(e) => e matches CoreError::AffinityFailure(_) && *final(self) == *old(self),
            },
    {
        let handle = match self.taken.try_lock() {
            Ok(h) => h,
            Err(_) => {
                return Err(CoreError::AlreadyBound);
            },
        };
        let target: Vec<usize> = vec![self.index];
        match bind_to_cpu_set(to_cpu_set(&target)) {
            Ok(prior) => Ok(Cleanup::new(Some(prior), Some(self.index), Some(handle))),
            Err(e) => {
                self.taken.release(handle);
                proof {
                    resource::lemma_resource_eq(old(self).taken, self.taken);
                }
                Err(e)
            },
        }
    }

    /// Claim this core's occupancy permanently (no guard is produced, so
    /// nothing ever releases it) and hand back an independent core of the
    /// same id whose occupancy starts free.
    pub fn reserve(&mut self) -> (r: Result<ManagedCore, CoreError>)
        ensures
            final(self).spec_index() == old(self).spec_index(),
            old(self).spec_occupied() ==> r == Err::<ManagedCore, CoreError>(
                CoreError::AlreadyBound,
            ) && *final(self) == *old(self),
            !old(self).spec_occupied() ==> final(self).spec_occupied() && match r {
                Ok(c) => c.spec_index() == old(self).spec_index() && !c.spec_occupied(),
                Err(_) => false,
            },
    {
        match self.taken.try_lock() {
            Ok(handle) => {
                // The claim is intentionally kept forever: the handle is
                // discarded without a release, as the new owner manages the
                // core's lifetime itself.
                let _ = handle;
                Ok(ManagedCore::new(self.index))
            },
            Err(_) => Err(CoreError::AlreadyBound),
        }
    }

    /// Release this core's occupancy, consuming the claim witness.
    pub fn release(&mut self, handle: ResourceHandle) -> (r: ())
        ensures
            final(self).spec_index() == old(self).spec_index(),
            !final(self).spec_occupied(),
    {
        self.taken.release(handle);
    }
}

impl PartialEq for ManagedCore {
    fn eq(&self, other: &Self) -> (r: bool) {
        self.index == other.index
    }
}

impl vstd::std_specs::cmp::PartialEqSpecImpl for ManagedCore {
    open spec fn obeys_eq_spec() -> bool {
        true
    }

    open spec fn eq_spec(&self, other: &Self) -> bool {
        self.spec_index() == other.spec_index()
    }
}

/// Scope guard for one bound core: holds the affinity mask that was in
/// force before the bind, and the claim on the core's occupancy.  It must
/// stay on the thread that performed the bind, so it opts out of being sent
/// across threads.
#[derive(Debug)]
pub struct Cleanup {
    prior_state: Option<CpuSet>,
    core: Option<usize>,
    alive: Option<ResourceHandle>,
    _not_send: PhantomData<Rc<()>>,
}

impl Cleanup {
    /// The affinity mask to restore, if any.
    pub closed spec fn spec_prior(&self) -> Option<CpuSet> {
        self.prior_state
    }

    /// The core whose occupancy this guard holds, if any.
    pub closed spec fn spec_core(&self) -> Option<usize> {
        self.core
    }

    pub open spec fn is_inert(&self) -> bool {
        self.spec_prior() is None && self.spec_core() is None
    }

    pub closed spec fn wf(&self) -> bool {
        &&& match self.prior_state {
            Some(m) => m.wf(),
            None => true,
        }
        &&& (self.core is Some <==> self.alive is Some)
    }

    pub fn new(prior_state: Option<CpuSet>, core: Option<usize>, alive: Option<ResourceHandle>) -> (r:
        Cleanup)
        requires
            (prior_state matches Some(m) ==> m.wf()),
            core is Some <==> alive is Some,
        ensures
            r.spec_prior() == prior_state,
            r.spec_core() == core,
            r.wf(),
            (prior_state is None && core is None) ==> r.is_inert(),
    {
        Cleanup { prior_state, core, alive, _not_send: PhantomData }
    }

    /// Discard both obligations: the thread's affinity stays as bound, and
    /// the core's occupancy claim is never released.
    pub fn detach(self) {
        let _ = self;
    }

    /// Restore the affinity mask that was in force before the bind
    /// (best-effort: a failure of the OS primitive is swallowed, since
    /// tear-down must not fail) and release the core's occupancy claim into
    /// the registry.
    pub fn restore(self, reg: &mut GroupedAllocator)
        requires
            old(reg).wf(),
            self.wf(),
        ensures
            final(reg).wf(),
            match self.spec_core() {
                None => *final(reg) == *old(reg),
                Some(c) => vacate_step(*old(reg), *final(reg), c),
            },
    {
        let Cleanup { prior_state, core, alive, _not_send } = self;
        if let Some(mask) = prior_state {
            let _ = bind_to_cpu_set(mask);
        }
        if let Some(c) = core {
            match alive {
                Some(handle) => {
                    reg.release_core(c, handle);
                },
                None => {
                    proof {
                        assert(false);
                    }
                },
            }
        }
    }
}

#[derive(Debug)]
enum CoreGroupInner {
    AnyCore,
    Cores { group_id: usize, cores: Vec<usize> },
}

/// A lease over one group of cores: while it is alive, the group is
/// excluded from allocation.  The degenerate `any_core` variant stands for
/// "no dedicated cores" and makes every operation an inert no-op.
#[derive(Debug)]
pub struct CoreGroup {
    _lock: Option<ResourceHandle>,
    inner: CoreGroupInner,
}

impl CoreGroup {
    pub closed spec fn is_any_core(&self) -> bool {
        self.inner is AnyCore
    }

    /// Which group of the registry this lease claims.
    pub closed spec fn spec_group_id(&self) -> usize {
        match self.inner {
            CoreGroupInner::Cores { group_id, .. } => group_id,
            CoreGroupInner::AnyCore => 0,
        }
    }

    /// The ids of the leased cores, in group order.
    pub closed spec fn spec_cores(&self) -> Seq<usize> {
        match self.inner {
            CoreGroupInner::Cores { cores, .. } => cores@,
            CoreGroupInner::AnyCore => Seq::empty(),
        }
    }

    /// A lease of claimed cores carries the claim witness; the degenerate
    /// lease carries none.
    pub closed spec fn wf(&self) -> bool {
        match self.inner {
            CoreGroupInner::AnyCore => self._lock is None,
            CoreGroupInner::Cores { .. } => self._lock is Some,
        }
    }

    /// Every leased core is known to the registry and addressable by an
    /// affinity mask.
    pub open spec fn valid_for(&self, reg: &GroupedAllocator) -> bool {
        self.is_any_core() || forall|k: int|
            0 <= k < self.spec_cores().len() ==> reg.spec_has_core(#[trigger] self.spec_cores()[k])
                && self.spec_cores()[k] < CPU_SET_CAPACITY
    }

    pub open spec fn spec_cores_distinct(&self) -> bool {
        forall|k1: int, k2: int|
            0 <= k1 < k2 < self.spec_cores().len() ==> self.spec_cores()[k1]
                != self.spec_cores()[k2]
    }

    /// The degenerate lease: no dedicated cores.
    pub fn any_core() -> (r: CoreGroup)
        ensures
            r.is_any_core(),
            r.wf(),
            r.spec_cores() == Seq::<usize>::empty(),
    {
        CoreGroup { _lock: None, inner: CoreGroupInner::AnyCore }
    }

    /// A lease over the group `group_id` holding the listed cores; `lock`
    /// is the witness of the group's claim.
    pub fn cores(lock: ResourceHandle, group_id: usize, cores: Vec<usize>) -> (r: CoreGroup)
        ensures
            !r.is_any_core(),
            r.wf(),
            r.spec_group_id() == group_id,
            r.spec_cores() == cores@,
    {
        CoreGroup { _lock: Some(lock), inner: CoreGroupInner::Cores { group_id, cores } }
    }

    /// Convert the lease into independently-owned, detached per-core
    /// claims: every leased core's occupancy in the registry is claimed
    /// permanently, and fresh cores of the same ids are handed out.
    pub fn reserve(&self, reg: &mut GroupedAllocator) -> (r: Vec<ManagedCore>)
        requires
            old(reg).wf(),
            self.valid_for(old(reg)),
            self.spec_cores_distinct(),
            forall|k: int|
                0 <= k < self.spec_cores().len() ==> !old(reg).spec_occupied(
                    #[trigger] self.spec_cores()[k],
                ),
        ensures
            final(reg).wf(),
            self.is_any_core() ==> *final(reg) == *old(reg) && r@.len() == 0,
            !self.is_any_core() ==> {
                &&& r@.len() == self.spec_cores().len()
                &&& forall|k: int|
                    0 <= k < r@.len() ==> (#[trigger] r@[k]).spec_index() == self.spec_cores()[k]
                        && !r@[k].spec_occupied()
                &&& final(reg).spec_groups() == old(reg).spec_groups()
                &&& final(reg).spec_core_ids() == old(reg).spec_core_ids()
                &&& forall|id: usize|
                    #[trigger] final(reg).spec_occupied(id) == (old(reg).spec_occupied(id)
                        || self.spec_cores().contains(id))
            },
    {
        match &self.inner {
            CoreGroupInner::AnyCore => Vec::new(),
            CoreGroupInner::Cores { cores, .. } => {
                let mut out: Vec<ManagedCore> = Vec::new();
                let mut k: usize = 0;
                while k < cores.len()
                    invariant
                        k <= cores@.len(),
                        cores@ == self.spec_cores(),
                        self.spec_cores_distinct(),
                        reg.wf(),
                        forall|j: int|
                            0 <= j < cores@.len() ==> reg.spec_has_core(#[trigger] cores@[j])
                                && cores@[j] < CPU_SET_CAPACITY,
                        forall|j: int|
                            k <= j < cores@.len() ==> !reg.spec_occupied(#[trigger] cores@[j]),
                        out@.len() == k,
                        forall|j: int|
                            0 <= j < k ==> (#[trigger] out@[j]).spec_index() == cores@[j]
                                && !out@[j].spec_occupied(),
                        reg.spec_groups() == old(reg).spec_groups(),
                        reg.spec_core_ids() == old(reg).spec_core_ids(),
                        forall|id: usize|
                            #[trigger] reg.spec_occupied(id) == (old(reg).spec_occupied(id)
                                || cores@.take(k as int).contains(id)),
                    decreases cores@.len() - k,
                {
                    let id = cores[k];
                    let c = reg.reserve_core(id);
                    out.push(c);
                    proof {
                        assert(cores@.take(k + 1) =~= cores@.take(k as int).push(cores@[k as int]));
                        assert forall|x: usize|
                            #[trigger] reg.spec_occupied(x) == (old(reg).spec_occupied(x)
                                || cores@.take(k + 1).contains(x)) by {
                            if cores@.take(k + 1).contains(x) {
                                let j = choose|j: int|
                                    0 <= j < k + 1 && #[trigger] cores@.take(k + 1)[j] == x;
                                assert(cores@[j] == x);
                            }
                            if cores@.take(k as int).contains(x) {
                                let j = choose|j: int|
                                    0 <= j < k && #[trigger] cores@.take(k as int)[j] == x;
                                assert(cores@.take(k + 1)[j] == x);
                            }
                            if x == id {
                                assert(cores@.take(k + 1)[k as int] == x);
                            }
                        }
                    }
                    k += 1;
                }
                proof {
                    assert(cores@.take(cores@.len() as int) =~= cores@);
                }
                out
            },
        }
    }

    /// Bind the calling thread's affinity to the `index`-th core of the
    /// lease, claiming that core's occupancy.  The degenerate lease returns
    /// an inert guard without touching anything.
    pub fn bind_nth(&self, reg: &mut GroupedAllocator, index: usize) -> (r: Result<
        Cleanup,
        CoreError,
    >)
        requires
            old(reg).wf(),
            self.valid_for(old(reg)),
        ensures
            final(reg).wf(),
            self.is_any_core() ==> *final(reg) == *old(reg) && (r matches Ok(cl) && cl.is_inert()
                && cl.wf()),
            (!self.is_any_core() && index >= self.spec_cores().len()) ==> r == Err::<
                Cleanup,
                CoreError,
            >(CoreError::IndexOutOfRange) && *final(reg) == *old(reg),
            (!self.is_any_core() && index < self.spec_cores().len() && old(reg).spec_occupied(
                self.spec_cores()[index as int],
            )) ==> r == Err::<Cleanup, CoreError>(CoreError::AlreadyBound) && *final(reg) == *old(
                reg,
            ),
            (!self.is_any_core() && index < self.spec_cores().len() && !old(reg).spec_occupied(
                self.spec_cores()[index as int],
            )) ==> match r {
                Ok(cl) => occupy_step(*old(reg), *final(reg), self.spec_cores()[index as int])
                    && cl.wf() && cl.spec_core() == Some(self.spec_cores()[index as int])
                    && cl.spec_prior() is Some,
                Err(e) => e matches CoreError::AffinityFailure(_) && same_state(
                    *old(reg),
                    *final(reg),
                ),
            },
    {
        match &self.inner {
            CoreGroupInner::AnyCore => Ok(Cleanup::new(None, None, None)),
            CoreGroupInner::Cores { cores, .. } => {
                if index >= cores.len() {
                    return Err(CoreError::IndexOutOfRange);
                }
                let id = cores[index];
                reg.bind_core(id)
            },
        }
    }

    /// The raw ids of the leased cores, or nothing for the degenerate
    /// lease.
    pub fn get_cores(&self) -> (r: Option<Vec<usize>>)
        ensures
            match r {
                None => self.is_any_core(),
                Some(v) => !self.is_any_core() && v@ == self.spec_cores(),
            },
    {
        match &self.inner {
            CoreGroupInner::AnyCore => None,
            CoreGroupInner::Cores { cores, .. } => Some(clone_ids(cores)),
        }
    }

    /// Give the lease up: the claimed group becomes allocatable again.
    pub fn release(self, reg: &mut GroupedAllocator)
        requires
            old(reg).wf(),
            self.wf(),
        ensures
            final(reg).wf(),
            self.is_any_core() ==> *final(reg) == *old(reg),
            !self.is_any_core() ==> unclaim_step(
                *old(reg),
                *final(reg),
                self.spec_group_id() as int,
            ),
    {
        let CoreGroup { _lock, inner } = self;
        match inner {
            CoreGroupInner::AnyCore => {},
            CoreGroupInner::Cores { group_id, cores } => {
                let _ = cores;
                match _lock {
                    Some(handle) => {
                        reg.release_group(group_id, handle);
                    },
                    None => {
                        proof {
                            assert(false);
                        }
                    },
                }
            },
        }
    }
}

/// Copy a list of core ids.
pub(crate) fn clone_ids(v: &Vec<usize>) -> (r: Vec<usize>)
    ensures
        r@ == v@,
{
    let mut r: Vec<usize> = Vec::new();
    let mut i: usize = 0;
    while i < v.len()
        invariant
            i <= v@.len(),
            r@ == v@.take(i as int),
        decreases v@.len() - i,
    {
        r.push(v[i]);
        proof {
            assert(v@.take(i + 1) =~= v@.take(i as int).push(v@[i as int]));
        }
        i += 1;
    }
    proof {
        assert(v@.take(v@.len() as int) =~= v@);
    }
    r
}

} // verus!
