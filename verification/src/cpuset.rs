use vstd::prelude::*;

verus! {

/// Number of CPU slots an affinity mask can address: the fixed capacity of
/// the operating system's cpu-set structure.
pub const CPU_SET_CAPACITY: usize = 1024;

/// An affinity mask: the set of CPUs a thread is permitted to run on,
/// held as one bit per addressable CPU.
#[derive(Debug)]
pub struct CpuSet {
    bits: Vec<bool>,
}

impl CpuSet {
    pub closed spec fn spec_bits(&self) -> Seq<bool> {
        self.bits@
    }

    /// Structurally valid: exactly one bit per addressable CPU.
    pub open spec fn wf(&self) -> bool {
        self.spec_bits().len() == CPU_SET_CAPACITY
    }

    pub open spec fn spec_is_set(&self, i: int) -> bool {
        0 <= i < self.spec_bits().len() && self.spec_bits()[i]
    }

    /// An empty mask: no CPU selected.
    pub fn new() -> (r: CpuSet)
        ensures
            r.wf(),
            forall|i: int| !r.spec_is_set(i),
    {
        let bits: Vec<bool> = vec![false; CPU_SET_CAPACITY];
        CpuSet { bits }
    }

    /// How many CPUs a mask can address.
    pub fn count() -> (r: usize)
        ensures
            r == CPU_SET_CAPACITY,
    {
        CPU_SET_CAPACITY
    }

    /// Select CPU `i`; refused when `i` is beyond the mask's capacity.
    pub fn set(&mut self, i: usize) -> (r: Option<()>)
        requires
            old(self).wf(),
        ensures
            final(self).wf(),
            i < CPU_SET_CAPACITY ==> r == Some(()) && final(self).spec_bits() == old(
                self,
            ).spec_bits().update(i as int, true),
            i >= CPU_SET_CAPACITY ==> r is None && *final(self) == *old(self),
    {
        if i < CPU_SET_CAPACITY {
            self.bits[i] = true;
            Some(())
        } else {
            None
        }
    }

    pub(crate) fn from_bits(bits: Vec<bool>) -> (r: CpuSet)
        requires
            bits@.len() == CPU_SET_CAPACITY,
        ensures
            r.wf(),
            r.spec_bits() == bits@,
    {
        CpuSet { bits }
    }

    /// Whether CPU `i` is selected; nothing when `i` is beyond capacity.
    pub fn is_set(&self, i: usize) -> (r: Option<bool>)
        requires
            self.wf(),
        ensures
            i < CPU_SET_CAPACITY ==> r == Some(self.spec_is_set(i as int)),
            i >= CPU_SET_CAPACITY ==> r is None,
    {
        if i < CPU_SET_CAPACITY {
            Some(self.bits[i])
        } else {
            None
        }
    }
}

impl PartialEq for CpuSet {
    fn eq(&self, other: &Self) -> (r: bool) {
        if self.bits.len() != other.bits.len() {
            return false;
        }
        let mut i: usize = 0;
        while i < self.bits.len()
            invariant
                i <= self.bits.len(),
                self.bits.len() == other.bits.len(),
                forall|j: int| 0 <= j < i ==> self.bits@[j] == other.bits@[j],
            decreases self.bits.len() - i,
        {
            if self.bits[i] != other.bits[i] {
                assert(self.bits@ != other.bits@);
                return false;
            }
            i += 1;
        }
        proof {
            assert(self.bits@ =~= other.bits@);
        }
        true
    }
}

impl vstd::std_specs::cmp::PartialEqSpecImpl for CpuSet {
    open spec fn obeys_eq_spec() -> bool {
        true
    }

    open spec fn eq_spec(&self, other: &Self) -> bool {
        self.spec_bits() == other.spec_bits()
    }
}

} // verus!
