use crate::cpuset::{CpuSet, CPU_SET_CAPACITY};
use crate::CoreError;
use vstd::prelude::*;

verus! {

/// Relies on nix::unistd::gettid and nix::sched::sched_getaffinity: reads
/// the calling thread's current affinity mask into one plain bit per
/// addressable CPU, or returns the raw OS error code.
#[verifier::external_body]
fn get_thread_affinity() -> (r: Result<CpuSet, i32>)
    ensures
        r matches Ok(m) ==> m.wf(),
{
    match nix::sched::sched_getaffinity(nix::unistd::gettid()) {
        Ok(set) => {
            let mut bits: Vec<bool> = Vec::with_capacity(CPU_SET_CAPACITY);
            let mut i: usize = 0;
            while i < CPU_SET_CAPACITY {
                bits.push(set.is_set(i).unwrap_or(false));
                i += 1;
            }
            Ok(CpuSet::from_bits(bits))
        },
        Err(e) => Err(e as i32),
    }
}

/// Relies on nix::unistd::gettid and nix::sched::sched_setaffinity:
/// installs the selected bits of `mask` as the calling thread's affinity
/// mask, or returns the raw OS error code.
#[verifier::external_body]
fn set_thread_affinity(mask: &CpuSet) -> Result<(), i32> {
    let mut set = nix::sched::CpuSet::new();
    let mut i: usize = 0;
    while i < CPU_SET_CAPACITY {
        if mask.is_set(i) == Some(true) {
            let _ = set.set(i);
        }
        i += 1;
    }
    match nix::sched::sched_setaffinity(nix::unistd::gettid(), &set) {
        Ok(()) => Ok(()),
        Err(e) => Err(e as i32),
    }
}

/// Build a mask from the listed cores; with no cores listed, the mask
/// selects every addressable CPU instead.
pub fn to_cpu_set(cores: &Vec<usize>) -> (r: CpuSet)
    requires
        forall|k: int| 0 <= k < cores@.len() ==> cores@[k] < CPU_SET_CAPACITY,
    ensures
        r.wf(),
        cores@.len() == 0 ==> forall|i: int| 0 <= i < CPU_SET_CAPACITY ==> r.spec_is_set(i),
        cores@.len() > 0 ==> forall|i: int|
            0 <= i < CPU_SET_CAPACITY ==> (r.spec_is_set(i) <==> cores@.contains(i as usize)),
{
    let mut set = CpuSet::new();
    if cores.len() == 0 {
        let mut i: usize = 0;
        while i < CPU_SET_CAPACITY
            invariant
                i <= CPU_SET_CAPACITY,
                set.wf(),
                forall|j: int| 0 <= j < i ==> set.spec_is_set(j),
            decreases CPU_SET_CAPACITY - i,
        {
            let ghost prev = set;
            let _ = set.set(i);
            proof {
                assert(set.spec_bits() == prev.spec_bits().update(i as int, true));
                assert forall|j: int| 0 <= j < i + 1 implies set.spec_is_set(j) by {
                    if j < i {
                        assert(prev.spec_is_set(j));
                    }
                }
            }
            i += 1;
        }
        set
    } else {
        let mut k: usize = 0;
        while k < cores.len()
            invariant
                k <= cores@.len(),
                set.wf(),
                forall|j: int| 0 <= j < cores@.len() ==> cores@[j] < CPU_SET_CAPACITY,
                forall|i: int|
                    0 <= i < CPU_SET_CAPACITY ==> (set.spec_is_set(i) <==> exists|j: int|
                        0 <= j < k && cores@[j] == i as usize),
            decreases cores@.len() - k,
        {
            let c = cores[k];
            let ghost prev = set;
            let _ = set.set(c);
            proof {
                assert(set.spec_bits() == prev.spec_bits().update(c as int, true));
                assert forall|i: int|
                    0 <= i < CPU_SET_CAPACITY implies (set.spec_is_set(i) <==> exists|j: int|
                        0 <= j < k + 1 && cores@[j] == i as usize) by {
                    if i == c {
                        assert(set.spec_is_set(i));
                        assert(0 <= k < k + 1 && cores@[k as int] == i as usize);
                    } else {
                        assert(set.spec_is_set(i) <==> prev.spec_is_set(i));
                        if exists|j: int| 0 <= j < k + 1 && cores@[j] == i as usize {
                            let j = choose|j: int| 0 <= j < k + 1 && cores@[j] == i as usize;
                            assert(j < k);
                            assert(exists|j2: int| 0 <= j2 < k && cores@[j2] == i as usize);
                        }
                    }
                }
            }
            k += 1;
        }
        proof {
            assert forall|i: int|
                0 <= i < CPU_SET_CAPACITY implies (set.spec_is_set(i) <==> cores@.contains(
                i as usize,
            )) by {
                if set.spec_is_set(i) {
                    let j = choose|j: int| 0 <= j < cores@.len() && cores@[j] == i as usize;
                    assert(cores@.contains(i as usize));
                }
                if cores@.contains(i as usize) {
                    let j = choose|j: int| 0 <= j < cores@.len() && cores@[j] == i as usize;
                    assert(exists|j2: int| 0 <= j2 < cores@.len() && cores@[j2] == i as usize);
                }
            }
        }
        set
    }
}

/// Set the calling thread's affinity to `cpuset` and hand back the mask that
/// was in force just before, so that a guard can restore it later.
pub fn bind_to_cpu_set(cpuset: CpuSet) -> (r: Result<CpuSet, CoreError>)
    requires
        cpuset.wf(),
    ensures
        r matches Ok(prev) ==> prev.wf(),
        r matches Err(e) ==> e matches CoreError::AffinityFailure(_),
{
    let prev = match get_thread_affinity() {
        Ok(p) => p,
        Err(code) => {
            return Err(CoreError::AffinityFailure(code));
        },
    };
    match set_thread_affinity(&cpuset) {
        Ok(_) => Ok(prev),
        Err(code) => Err(CoreError::AffinityFailure(code)),
    }
}

/// Read the calling thread's current affinity mask.
pub fn current_affinity() -> (r: Result<CpuSet, CoreError>)
    ensures
        r matches Ok(m) ==> m.wf(),
        r matches Err(e) ==> e matches CoreError::AffinityFailure(_),
{
    match get_thread_affinity() {
        Ok(p) => Ok(p),
        Err(code) => Err(CoreError::AffinityFailure(code)),
    }
}

} // verus!
