use crate::cpuset::CPU_SET_CAPACITY;
use crate::resource::{Resource, ResourceHandle};
use crate::{clone_ids, Cleanup, CoreAllocator, CoreError, CoreGroup, ManagedCore};
use std::ops::Range;
use vstd::prelude::*;

verus! {

/// An allocator that dedicates no cores: every allocation succeeds with the
/// degenerate lease.
#[derive(Debug)]
pub struct NoAllocator;

impl CoreAllocator for NoAllocator {
    open spec fn allocator_inv(&self) -> bool {
        true
    }

    fn allocate_core(&mut self) -> (r: Option<CoreGroup>)
        ensures
            r matches Some(g) && g.is_any_core() && g.wf(),
    {
        Some(CoreGroup::any_core())
    }
}

/// A fixed set of cores together with the group-level exclusivity claim.
#[derive(Debug)]
struct ManagedGroup {
    resource: Resource,
    group: Vec<usize>,
}

/// The registry: an ordered list of core groups, each with an exclusivity
/// claim, over a table of managed cores tracking per-core occupancy.
#[derive(Debug)]
pub struct GroupedAllocator {
    cores: Vec<ManagedCore>,
    groups: Vec<ManagedGroup>,
}

impl GroupedAllocator {
    /// The groups, in construction order: each is its cores (in order) and
    /// whether it is currently claimed.
    pub closed spec fn spec_groups(&self) -> Seq<(Seq<usize>, bool)> {
        self.groups@.map_values(|g: ManagedGroup| (g.group@, g.resource.spec_taken()))
    }

    pub open spec fn spec_group_count(&self) -> int {
        self.spec_groups().len() as int
    }

    pub open spec fn spec_group_cores(&self, g: int) -> Seq<usize> {
        self.spec_groups()[g].0
    }

    pub open spec fn spec_claimed(&self, g: int) -> bool {
        self.spec_groups()[g].1
    }

    /// The distinct core ids the registry tracks, in first-seen order.
    pub closed spec fn spec_core_ids(&self) -> Seq<usize> {
        self.cores@.map_values(|c: ManagedCore| c.spec_index())
    }

    pub open spec fn spec_has_core(&self, id: usize) -> bool {
        self.spec_core_ids().contains(id)
    }

    /// Whether the core's occupancy is claimed (bound or reserved).
    pub closed spec fn spec_occupied(&self, id: usize) -> bool {
        exists|p: int|
            0 <= p < self.cores@.len() && (#[trigger] self.cores@[p]).spec_index() == id
                && self.cores@[p].spec_occupied()
    }

    /// The registry's invariant: each core id is tracked once, and every
    /// group is a non-empty list of distinct, addressable ids known to the
    /// table.
    pub closed spec fn wf(&self) -> bool {
        &&& forall|p: int, q: int|
            0 <= p < q < self.cores@.len() ==> (#[trigger] self.cores@[p]).spec_index() != (
            #[trigger] self.cores@[q]).spec_index()
        &&& forall|g: int, k: int|
            0 <= g < self.groups@.len() && 0 <= k < (#[trigger] self.groups@[g]).group@.len()
                ==> self.spec_has_core(#[trigger] self.groups@[g].group@[k])
                && self.groups@[g].group@[k] < CPU_SET_CAPACITY
        &&& forall|g: int|
            0 <= g < self.groups@.len() ==> (#[trigger] self.groups@[g]).group@.len() > 0
        &&& forall|g: int, k1: int, k2: int|
            0 <= g < self.groups@.len() && 0 <= k1 < k2 < self.groups@[g].group@.len() ==> (
            #[trigger] self.groups@[g].group@[k1]) != (#[trigger] self.groups@[g].group@[k2])
    }

    /// An empty registry.
    pub fn new() -> (r: GroupedAllocator)
        ensures
            r.wf(),
            r.spec_group_count() == 0,
            r.spec_core_ids().len() == 0,
    {
        let r = GroupedAllocator { cores: Vec::new(), groups: Vec::new() };
        proof {
            assert(r.spec_groups() =~= Seq::<(Seq<usize>, bool)>::empty());
            assert(r.spec_core_ids() =~= Seq::<usize>::empty());
        }
        r
    }

    /// Where the table keeps the core `id`.
    fn find_core_pos(&self, id: usize) -> (r: Option<usize>)
        ensures
            match r {
                Some(p) => p < self.cores@.len() && self.cores@[p as int].spec_index() == id,
                None => !self.spec_has_core(id),
            },
    {
        let mut p: usize = 0;
        while p < self.cores.len()
            invariant
                p <= self.cores@.len(),
                forall|q: int| 0 <= q < p ==> (#[trigger] self.cores@[q]).spec_index() != id,
            decreases self.cores@.len() - p,
        {
            if self.cores[p].get_raw() == id {
                return Some(p);
            }
            p += 1;
        }
        proof {
            assert forall|q: int|
                0 <= q < self.spec_core_ids().len() implies #[trigger] self.spec_core_ids()[q]
                != id by {
                assert(self.cores@[q].spec_index() != id);
            }
        }
        None
    }

    /// Register one more group over the given cores, which must be fresh
    /// (distinct, addressable, occupancy free).  Ids already tracked keep
    /// their table entry; new ids join the table.
    pub fn add_group(&mut self, group: Vec<ManagedCore>)
        requires
            old(self).wf(),
            group@.len() > 0,
            forall|k1: int, k2: int|
                0 <= k1 < k2 < group@.len() ==> (#[trigger] group@[k1]).spec_index() != (
                #[trigger] group@[k2]).spec_index(),
            forall|k: int|
                0 <= k < group@.len() ==> (#[trigger] group@[k]).spec_index() < CPU_SET_CAPACITY
                    && !group@[k].spec_occupied(),
        ensures
            final(self).wf(),
            final(self).spec_group_count() == old(self).spec_group_count() + 1,
            forall|g: int|
                0 <= g < old(self).spec_group_count() ==> #[trigger] final(self).spec_groups()[g]
                    == old(self).spec_groups()[g],
            final(self).spec_group_cores(old(self).spec_group_count()).len() == group@.len(),
            forall|k: int|
                0 <= k < group@.len() ==> #[trigger] final(self).spec_group_cores(
                    old(self).spec_group_count(),
                )[k] == group@[k].spec_index(),
            !final(self).spec_claimed(old(self).spec_group_count()),
            forall|id: usize|
                #[trigger] final(self).spec_has_core(id) <==> (old(self).spec_has_core(id)
                    || exists|k: int| 0 <= k < group@.len() && (#[trigger] group@[k]).spec_index()
                    == id),
            forall|id: usize|
                #[trigger] final(self).spec_occupied(id) == old(self).spec_occupied(id),
    {
        let ghost gids = group@.map_values(|c: ManagedCore| c.spec_index());
        let mut ids: Vec<usize> = Vec::new();
        let mut k: usize = 0;
        while k < group.len()
            invariant
                k <= group@.len(),
                forall|k1: int, k2: int|
                    0 <= k1 < k2 < group@.len() ==> (#[trigger] group@[k1]).spec_index() != (
                    #[trigger] group@[k2]).spec_index(),
                forall|j: int|
                    0 <= j < group@.len() ==> (#[trigger] group@[j]).spec_index()
                        < CPU_SET_CAPACITY && !group@[j].spec_occupied(),
                gids == group@.map_values(|c: ManagedCore| c.spec_index()),
                gids.len() == group@.len(),
                ids@ == gids.take(k as int),
                self.groups@ == old(self).groups@,
                forall|p: int, q: int|
                    0 <= p < q < self.cores@.len() ==> (#[trigger] self.cores@[p]).spec_index()
                        != (#[trigger] self.cores@[q]).spec_index(),
                forall|x: usize|
                    #[trigger] self.spec_has_core(x) <==> (old(self).spec_has_core(x)
                        || gids.take(k as int).contains(x)),
                forall|x: usize| #[trigger] self.spec_occupied(x) == old(self).spec_occupied(x),
            decreases group@.len() - k,
        {
            let id = group[k].get_raw();
            proof {
                assert(gids[k as int] == group@[k as int].spec_index());
                assert(gids.take(k + 1) =~= gids.take(k as int).push(gids[k as int]));
            }
            ids.push(id);
            match self.find_core_pos(id) {
                Some(p) => {
                    proof {
                        assert(self.spec_core_ids()[p as int] == id);
                        assert(self.spec_has_core(id));
                        assert forall|x: usize|
                            #[trigger] self.spec_has_core(x) <==> (old(self).spec_has_core(x)
                                || gids.take(k + 1).contains(x)) by {
                            lemma_contains_push(gids.take(k as int), gids[k as int], x);
                            assert(gids.take(k + 1) == gids.take(k as int).push(gids[k as int]));
                            if x == id {
                                assert(self.spec_has_core(id));
                            }
                        }
                    }
                },
                None => {
                    let ghost prev = *self;
                    let newc = ManagedCore::new(id);
                    self.cores.push(newc);
                    proof {
                        assert(self.cores@ == prev.cores@.push(newc));
                        assert(self.spec_core_ids() =~= prev.spec_core_ids().push(id));
                        // uniqueness is kept: the new id was not tracked
                        assert forall|p: int, q: int|
                            0 <= p < q < self.cores@.len() implies (
                        #[trigger] self.cores@[p]).spec_index() != (
                        #[trigger] self.cores@[q]).spec_index() by {
                            if q == prev.cores@.len() {
                                assert(self.cores@[p] == prev.cores@[p]);
                                if self.cores@[p].spec_index() == id {
                                    assert(prev.spec_core_ids()[p] == id);
                                    assert(prev.spec_has_core(id));
                                }
                            } else {
                                assert(self.cores@[p] == prev.cores@[p]);
                                assert(self.cores@[q] == prev.cores@[q]);
                            }
                        }
                        assert forall|x: usize|
                            #[trigger] self.spec_has_core(x) <==> (old(self).spec_has_core(x)
                                || gids.take(k + 1).contains(x)) by {
                            lemma_contains_push(gids.take(k as int), gids[k as int], x);
                            lemma_contains_push(prev.spec_core_ids(), id, x);
                            assert(gids.take(k + 1) == gids.take(k as int).push(gids[k as int]));
                            assert(self.spec_core_ids() == prev.spec_core_ids().push(id));
                            assert(prev.spec_has_core(x) <==> (old(self).spec_has_core(x)
                                || gids.take(k as int).contains(x)));
                        }
                        assert forall|x: usize|
                            #[trigger] self.spec_occupied(x) == old(self).spec_occupied(x) by {
                            if self.spec_occupied(x) {
                                let pp = choose|pp: int|
                                    0 <= pp < self.cores@.len() && (
                                    #[trigger] self.cores@[pp]).spec_index() == x
                                        && self.cores@[pp].spec_occupied();
                                if pp == prev.cores@.len() {
                                    assert(!newc.spec_occupied());
                                    assert(false);
                                }
                                assert(self.cores@[pp] == prev.cores@[pp]);
                                assert(prev.spec_occupied(x));
                            }
                            if prev.spec_occupied(x) {
                                let pp = choose|pp: int|
                                    0 <= pp < prev.cores@.len() && (
                                    #[trigger] prev.cores@[pp]).spec_index() == x
                                        && prev.cores@[pp].spec_occupied();
                                assert(self.cores@[pp] == prev.cores@[pp]);
                                assert(self.spec_occupied(x));
                            }
                        }
                    }
                },
            }
            k += 1;
        }
        proof {
            assert(gids.take(gids.len() as int) =~= gids);
            assert(ids@ == gids);
        }
        let ghost before = *self;
        let newgroup = ManagedGroup { resource: Resource::new(), group: ids };
        proof {
            assert(!newgroup.resource.spec_taken());
            assert(newgroup.group@ == gids);
        }
        self.groups.push(newgroup);
        proof {
            assert(self.groups@ == before.groups@.push(newgroup));
            assert(self.cores@ == before.cores@);
            assert(self.spec_core_ids() == before.spec_core_ids());
            assert(self.spec_groups() =~= before.spec_groups().push((gids, false)));
            let ghost n = old(self).spec_group_count();
            assert(before.spec_groups() == old(self).spec_groups());
            assert(self.spec_group_cores(n) == gids);
            assert(!self.spec_claimed(n));
            // what the table now holds: the old ids plus the group's ids
            assert forall|x: usize|
                #[trigger] self.spec_has_core(x) <==> (old(self).spec_has_core(x) || exists|kk: int|
                    0 <= kk < group@.len() && (#[trigger] group@[kk]).spec_index() == x) by {
                assert(before.spec_has_core(x) <==> (old(self).spec_has_core(x) || gids.take(
                    k as int,
                ).contains(x)));
                assert(gids.take(k as int) == gids);
                if gids.contains(x) {
                    let kk = choose|kk: int| 0 <= kk < gids.len() && (#[trigger] gids[kk]) == x;
                    assert(group@[kk].spec_index() == x);
                }
                if exists|kk: int|
                    0 <= kk < group@.len() && (#[trigger] group@[kk]).spec_index() == x {
                    let kk = choose|kk: int|
                        0 <= kk < group@.len() && (#[trigger] group@[kk]).spec_index() == x;
                    assert(gids[kk] == x);
                    assert(gids.contains(x));
                }
            }
            assert forall|x: usize|
                #[trigger] self.spec_occupied(x) == old(self).spec_occupied(x) by {
                assert(before.spec_occupied(x) == old(self).spec_occupied(x));
            }
            // the new group's cores are the given cores' ids, in order
            assert forall|kk: int|
                0 <= kk < group@.len() implies #[trigger] self.spec_group_cores(n)[kk]
                == group@[kk].spec_index() by {
                assert(gids[kk] == group@[kk].spec_index());
            }
            // the invariant carries over to the grown group list
            assert forall|g: int, k2: int|
                0 <= g < self.groups@.len() && 0 <= k2 < (
            #[trigger] self.groups@[g]).group@.len() implies self.spec_has_core(
                #[trigger] self.groups@[g].group@[k2],
            ) && self.groups@[g].group@[k2] < CPU_SET_CAPACITY by {
                if g < before.groups@.len() {
                    assert(self.groups@[g] == before.groups@[g]);
                    assert(old(self).groups@[g] == before.groups@[g]);
                    assert(old(self).spec_has_core(old(self).groups@[g].group@[k2])
                        && old(self).groups@[g].group@[k2] < CPU_SET_CAPACITY);
                } else {
                    assert(self.groups@[g].group@ == gids);
                    assert(gids[k2] == group@[k2].spec_index());
                    assert(exists|kk: int|
                        0 <= kk < group@.len() && (#[trigger] group@[kk]).spec_index()
                            == gids[k2]) by {
                        assert(group@[k2].spec_index() == gids[k2]);
                    }
                    assert(self.spec_has_core(gids[k2]));
                }
            }
            assert forall|g: int, k1: int, k2: int|
                0 <= g < self.groups@.len() && 0 <= k1 < k2 < self.groups@[g].group@.len() implies (
            #[trigger] self.groups@[g].group@[k1]) != (#[trigger] self.groups@[g].group@[k2]) by {
                if g < before.groups@.len() {
                    assert(self.groups@[g] == before.groups@[g]);
                    assert(old(self).groups@[g] == before.groups@[g]);
                    assert(old(self).wf());
                } else {
                    assert(self.groups@[g].group@ == gids);
                    assert(gids[k1] == group@[k1].spec_index());
                    assert(gids[k2] == group@[k2].spec_index());
                }
            }
            assert forall|g: int|
                0 <= g < self.groups@.len() implies (#[trigger] self.groups@[g]).group@.len()
                > 0 by {
                if g < before.groups@.len() {
                    assert(self.groups@[g] == before.groups@[g]);
                    assert(old(self).groups@[g] == before.groups@[g]);
                }
            }
        }
    }

    /// The table entry tracking `id` (meaningful when `id` is tracked and
    /// the registry is well-formed).
    pub closed spec fn spec_core_at(&self, id: usize) -> ManagedCore {
        self.cores@[choose|p: int|
            0 <= p < self.cores@.len() && (#[trigger] self.cores@[p]).spec_index() == id]
    }

    /// Keep only the groups all of whose cores the predicate accepts; a
    /// group with at least one rejected core is removed.  The returned
    /// ghost sequence names which of the former groups survive, in order.
    pub fn filter_group<F: Fn(&ManagedCore) -> bool>(&mut self, filter: F) -> (m: Ghost<Seq<int>>)
        requires
            old(self).wf(),
            forall|c: ManagedCore| #[trigger] call_requires(filter, (&c,)),
        ensures
            final(self).wf(),
            final(self).spec_core_ids() == old(self).spec_core_ids(),
            forall|x: usize| #[trigger] final(self).spec_occupied(x) == old(self).spec_occupied(x),
            m@.len() == final(self).spec_group_count(),
            forall|j1: int, j2: int| 0 <= j1 < j2 < m@.len() ==> #[trigger] m@[j1] < #[trigger] m@[j2],
            forall|j: int| 0 <= j < m@.len() ==> 0 <= #[trigger] m@[j] < old(self).spec_group_count(),
            forall|j: int|
                0 <= j < m@.len() ==> #[trigger] final(self).spec_groups()[j] == old(
                    self,
                ).spec_groups()[m@[j]],
            forall|j: int, kk: int|
                0 <= j < m@.len() && 0 <= kk < final(self).spec_group_cores(j).len()
                    ==> call_ensures(
                    filter,
                    (&old(self).spec_core_at(#[trigger] final(self).spec_group_cores(j)[kk]),),
                    true,
                ),
            forall|g: int|
                0 <= g < old(self).spec_group_count() && !m@.contains(g) ==> exists|kk: int|
                    0 <= kk < old(self).spec_group_cores(g).len() && call_ensures(
                        filter,
                        (&old(self).spec_core_at(#[trigger] old(self).spec_group_cores(g)[kk]),),
                        false,
                    ),
    {
        let ghost orig = *old(self);
        let mut kept: Vec<ManagedGroup> = Vec::new();
        let ghost mut m: Seq<int> = Seq::empty();
        let ghost mut done: int = 0;
        while self.groups.len() > 0
            invariant
                orig.wf(),
                forall|c: ManagedCore| #[trigger] call_requires(filter, (&c,)),
                self.cores@ == orig.cores@,
                0 <= done <= orig.groups@.len(),
                self.groups@ == orig.groups@.skip(done),
                m.len() == kept@.len(),
                forall|j1: int, j2: int| 0 <= j1 < j2 < m.len() ==> #[trigger] m[j1] < #[trigger] m[j2],
                forall|j: int| 0 <= j < m.len() ==> 0 <= #[trigger] m[j] < done,
                forall|j: int| 0 <= j < m.len() ==> #[trigger] kept@[j] == orig.groups@[m[j]],
                forall|j: int, kk: int|
                    0 <= j < m.len() && 0 <= kk < (#[trigger] kept@[j]).group@.len()
                        ==> call_ensures(
                        filter,
                        (&orig.spec_core_at(#[trigger] kept@[j].group@[kk]),),
                        true,
                    ),
                forall|g: int|
                    0 <= g < done && !m.contains(g) ==> exists|kk: int|
                        0 <= kk < orig.groups@[g].group@.len() && call_ensures(
                            filter,
                            (&orig.spec_core_at(#[trigger] orig.groups@[g].group@[kk]),),
                            false,
                        ),
            decreases self.groups@.len(),
        {
            let grp = self.groups.remove(0);
            proof {
                assert(orig.groups@.skip(done)[0] == grp);
                assert(orig.groups@[done] == grp);
                assert(orig.groups@.skip(done).remove(0) =~= orig.groups@.skip(done + 1));
            }
            let mut all_ok = true;
            let ghost mut reject_at: int = 0;
            let mut k: usize = 0;
            while k < grp.group.len()
                invariant
                    orig.wf(),
                    forall|c: ManagedCore| #[trigger] call_requires(filter, (&c,)),
                    self.cores@ == orig.cores@,
                    0 <= done < orig.groups@.len(),
                    grp == orig.groups@[done],
                    k <= grp.group@.len(),
                    all_ok ==> forall|kk: int|
                        0 <= kk < k ==> call_ensures(
                            filter,
                            (&orig.spec_core_at(#[trigger] grp.group@[kk]),),
                            true,
                        ),
                    !all_ok ==> 0 <= reject_at < grp.group@.len() && call_ensures(
                        filter,
                        (&orig.spec_core_at(grp.group@[reject_at]),),
                        false,
                    ),
                decreases grp.group@.len() - k,
            {
                let id = grp.group[k];
                proof {
                    assert(id == orig.groups@[done].group@[k as int]);
                    assert(orig.spec_has_core(id) && id < CPU_SET_CAPACITY);
                    assert(self.spec_core_ids() == orig.spec_core_ids());
                }
                match self.find_core_pos(id) {
                    Some(pos) => {
                        proof {
                            lemma_core_at_pos(orig, id, pos as int);
                        }
                        if !filter(&self.cores[pos]) {
                            proof {
                                if all_ok {
                                    reject_at = k as int;
                                }
                            }
                            all_ok = false;
                        }
                    },
                    None => {
                        proof {
                            assert(false);
                        }
                    },
                }
                k += 1;
            }
            if all_ok {
                kept.push(grp);
                proof {
                    let prevm = m;
                    m = m.push(done);
                    assert(m[m.len() - 1] == done);
                    assert forall|g: int|
                        0 <= g < done + 1 && !m.contains(g) implies exists|kk: int|
                            0 <= kk < orig.groups@[g].group@.len() && call_ensures(
                                filter,
                                (&orig.spec_core_at(#[trigger] orig.groups@[g].group@[kk]),),
                                false,
                            ) by {
                        lemma_contains_push(prevm, done, g);
                        assert(m == prevm.push(done));
                        if g < done {
                            assert(!prevm.contains(g));
                            assert(exists|kk: int|
                                0 <= kk < orig.groups@[g].group@.len() && call_ensures(
                                    filter,
                                    (&orig.spec_core_at(#[trigger] orig.groups@[g].group@[kk]),),
                                    false,
                                ));
                        } else {
                            assert(m.contains(g));
                            assert(false);
                        }
                    }
                }
            } else {
                proof {
                    assert forall|g: int|
                        0 <= g < done + 1 && !m.contains(g) implies exists|kk: int|
                            0 <= kk < orig.groups@[g].group@.len() && call_ensures(
                                filter,
                                (&orig.spec_core_at(#[trigger] orig.groups@[g].group@[kk]),),
                                false,
                            ) by {
                        if g == done {
                            assert(0 <= reject_at < orig.groups@[done].group@.len()
                                && call_ensures(
                                filter,
                                (&orig.spec_core_at(orig.groups@[done].group@[reject_at]),),
                                false,
                            ));
                        }
                    }
                }
            }
            proof {
                done = done + 1;
            }
        }
        self.groups = kept;
        let ghost witness = m;
        proof {
            assert(orig.groups@.skip(orig.groups@.len() as int) =~= Seq::<ManagedGroup>::empty());
            assert(done == orig.groups@.len());
            assert(self.spec_core_ids() == orig.spec_core_ids());
            assert forall|j: int|
                0 <= j < witness.len() implies #[trigger] self.spec_groups()[j]
                == orig.spec_groups()[witness[j]] by {
                assert(self.groups@[j] == orig.groups@[witness[j]]);
            }
            assert forall|j: int, kk: int|
                0 <= j < witness.len() && 0 <= kk < self.spec_group_cores(j).len()
                    implies call_ensures(
                filter,
                (&orig.spec_core_at(#[trigger] self.spec_group_cores(j)[kk]),),
                true,
            ) by {
                assert(self.spec_group_cores(j) == self.groups@[j].group@);
                assert(self.groups@[j] == kept@[j]);
            }
            // well-formedness carries over: every kept group is an old group
            assert forall|g: int, k2: int|
                0 <= g < self.groups@.len() && 0 <= k2 < (
            #[trigger] self.groups@[g]).group@.len() implies self.spec_has_core(
                #[trigger] self.groups@[g].group@[k2],
            ) && self.groups@[g].group@[k2] < CPU_SET_CAPACITY by {
                assert(self.groups@[g] == orig.groups@[witness[g]]);
                assert(orig.spec_has_core(orig.groups@[witness[g]].group@[k2])
                    && orig.groups@[witness[g]].group@[k2] < CPU_SET_CAPACITY);
            }
            assert forall|g: int|
                0 <= g < self.groups@.len() implies (#[trigger] self.groups@[g]).group@.len()
                > 0 by {
                assert(self.groups@[g] == orig.groups@[witness[g]]);
            }
            assert forall|g: int, k1: int, k2: int|
                0 <= g < self.groups@.len() && 0 <= k1 < k2 < self.groups@[g].group@.len() implies (
            #[trigger] self.groups@[g].group@[k1]) != (#[trigger] self.groups@[g].group@[k2]) by {
                assert(self.groups@[g] == orig.groups@[witness[g]]);
            }
            assert forall|g: int|
                0 <= g < orig.spec_group_count() && !witness.contains(g) implies exists|kk: int|
                    0 <= kk < orig.spec_group_cores(g).len() && call_ensures(
                        filter,
                        (&orig.spec_core_at(#[trigger] orig.spec_group_cores(g)[kk]),),
                        false,
                    ) by {
                let kk = choose|kk: int|
                    0 <= kk < orig.groups@[g].group@.len() && call_ensures(
                        filter,
                        (&orig.spec_core_at(#[trigger] orig.groups@[g].group@[kk]),),
                        false,
                    );
                assert(orig.spec_group_cores(g) == orig.groups@[g].group@);
                assert(orig.spec_group_cores(g)[kk] == orig.groups@[g].group@[kk]);
            }
        }
        Ghost(witness)
    }

    /// Claim the occupancy of the tracked core `id` and bind the calling
    /// thread to it.
    pub(crate) fn bind_core(&mut self, id: usize) -> (r: Result<Cleanup, CoreError>)
        requires
            old(self).wf(),
            old(self).spec_has_core(id),
            id < CPU_SET_CAPACITY,
        ensures
            final(self).wf(),
            old(self).spec_occupied(id) ==> r == Err::<Cleanup, CoreError>(CoreError::AlreadyBound)
                && *final(self) == *old(self),
            !old(self).spec_occupied(id) ==> match r {
                Ok(cl) => occupy_step(*old(self), *final(self), id) && cl.wf() && cl.spec_core()
                    == Some(id) && cl.spec_prior() is Some,
                Err(e) => e matches CoreError::AffinityFailure(_) && same_state(
                    *old(self),
                    *final(self),
                ),
            },
    {
        match self.find_core_pos(id) {
            None => {
                proof {
                    assert(false);
                }
                Err(CoreError::AlreadyBound)
            },
            Some(pos) => {
                if self.cores[pos].is_occupied() {
                    proof {
                        assert(self.spec_occupied(id));
                    }
                    Err(CoreError::AlreadyBound)
                } else {
                    proof {
                        assert(!old(self).spec_occupied(id)) by {
                            if old(self).spec_occupied(id) {
                                let p = choose|p: int|
                                    0 <= p < old(self).cores@.len() && (#[trigger] old(
                                        self,
                                    ).cores@[p]).spec_index() == id && old(
                                        self,
                                    ).cores@[p].spec_occupied();
                                assert(p == pos);
                            }
                        }
                    }
                    let res = self.cores[pos].bind();
                    match res {
                        Ok(cl) => {
                            proof {
                                lemma_table_update(*old(self), *self, pos as int, id);
                                assert(self.cores@[pos as int].spec_occupied());
                                assert(self.spec_occupied(id));
                            }
                            Ok(cl)
                        },
                        Err(e) => {
                            proof {
                                assert(self.cores@ =~= old(self).cores@);
                                lemma_table_update(*old(self), *self, pos as int, id);
                                assert forall|x: usize|
                                    #[trigger] self.spec_occupied(x) == old(self).spec_occupied(
                                        x,
                                    ) by {
                                    if self.spec_occupied(x) {
                                        let p = choose|p: int|
                                            0 <= p < self.cores@.len() && (
                                            #[trigger] self.cores@[p]).spec_index() == x
                                                && self.cores@[p].spec_occupied();
                                        assert(old(self).cores@[p] == self.cores@[p]);
                                    }
                                    if old(self).spec_occupied(x) {
                                        let p = choose|p: int|
                                            0 <= p < old(self).cores@.len() && (#[trigger] old(
                                                self,
                                            ).cores@[p]).spec_index() == x && old(
                                                self,
                                            ).cores@[p].spec_occupied();
                                        assert(self.cores@[p] == old(self).cores@[p]);
                                    }
                                }
                            }
                            Err(e)
                        },
                    }
                }
            },
        }
    }

    /// Permanently claim the occupancy of the tracked core `id`, handing
    /// back an independent, free core of the same id.
    pub(crate) fn reserve_core(&mut self, id: usize) -> (r: ManagedCore)
        requires
            old(self).wf(),
            old(self).spec_has_core(id),
            !old(self).spec_occupied(id),
        ensures
            final(self).wf(),
            r.spec_index() == id,
            !r.spec_occupied(),
            occupy_step(*old(self), *final(self), id),
    {
        match self.find_core_pos(id) {
            None => {
                proof {
                    assert(false);
                }
                ManagedCore::new(id)
            },
            Some(pos) => {
                proof {
                    assert(!old(self).cores@[pos as int].spec_occupied()) by {
                        if old(self).cores@[pos as int].spec_occupied() {
                            assert(old(self).spec_occupied(id));
                        }
                    }
                }
                let res = self.cores[pos].reserve();
                match res {
                    Ok(c) => {
                        proof {
                            lemma_table_update(*old(self), *self, pos as int, id);
                            assert(self.cores@[pos as int].spec_occupied());
                            assert(self.spec_occupied(id));
                        }
                        c
                    },
                    Err(_) => {
                        proof {
                            assert(false);
                        }
                        ManagedCore::new(id)
                    },
                }
            },
        }
    }

    /// Release the occupancy of the tracked core `id`, consuming the claim
    /// witness.  An untracked id releases nothing.
    pub(crate) fn release_core(&mut self, id: usize, handle: ResourceHandle)
        requires
            old(self).wf(),
        ensures
            final(self).wf(),
            vacate_step(*old(self), *final(self), id),
    {
        match self.find_core_pos(id) {
            None => {
                let _ = handle;
                proof {
                    assert forall|x: usize|
                        #[trigger] self.spec_occupied(x) == (old(self).spec_occupied(x) && x
                            != id) by {
                        if x == id && self.spec_occupied(x) {
                            let p = choose|p: int|
                                0 <= p < self.cores@.len() && (
                                #[trigger] self.cores@[p]).spec_index() == x
                                    && self.cores@[p].spec_occupied();
                            assert(self.spec_core_ids()[p] == id);
                            assert(self.spec_has_core(id));
                        }
                    }
                }
            },
            Some(pos) => {
                self.cores[pos].release(handle);
                proof {
                    lemma_table_update(*old(self), *self, pos as int, id);
                    assert forall|x: usize|
                        #[trigger] self.spec_occupied(x) == (old(self).spec_occupied(x) && x
                            != id) by {
                        if self.spec_occupied(x) {
                            let p = choose|p: int|
                                0 <= p < self.cores@.len() && (
                                #[trigger] self.cores@[p]).spec_index() == x
                                    && self.cores@[p].spec_occupied();
                            assert(p != pos);
                            assert(self.cores@[p] == old(self).cores@[p]);
                        }
                        if old(self).spec_occupied(x) && x != id {
                            let p = choose|p: int|
                                0 <= p < old(self).cores@.len() && (#[trigger] old(
                                    self,
                                ).cores@[p]).spec_index() == x && old(self).cores@[p].spec_occupied();
                            assert(p != pos);
                            assert(self.cores@[p] == old(self).cores@[p]);
                        }
                    }
                }
            },
        }
    }

    /// Give up the claim of group `g`, consuming the claim witness.  An
    /// out-of-range group releases nothing.
    pub(crate) fn release_group(&mut self, g: usize, handle: ResourceHandle)
        requires
            old(self).wf(),
        ensures
            final(self).wf(),
            unclaim_step(*old(self), *final(self), g as int),
    {
        if g < self.groups.len() {
            self.groups[g].resource.release(handle);
            proof {
                assert(self.groups@.len() == old(self).groups@.len());
                assert forall|j: int|
                    0 <= j < self.groups@.len() && j != g as int implies #[trigger] self.groups@[j]
                    == old(self).groups@[j] by {}
                assert(self.groups@[g as int].group@ == old(self).groups@[g as int].group@);
                assert(!self.groups@[g as int].resource.spec_taken());
                assert(self.cores@ == old(self).cores@);
                lemma_wf_groups_pointwise(*old(self), *self);
            }
        } else {
            let _ = handle;
        }
    }
}

impl CoreAllocator for GroupedAllocator {
    open spec fn allocator_inv(&self) -> bool {
        self.wf()
    }

    /// Claim and hand out the first group that is currently free, in
    /// construction order; nothing when every group is claimed.
    fn allocate_core(&mut self) -> (r: Option<CoreGroup>)
        ensures
            final(self).wf(),
            match r {
                None => *final(self) == *old(self) && spec_first_free(*old(self)) is None,
                Some(lease) => {
                    &&& lease.wf()
                    &&& !lease.is_any_core()
                    &&& spec_first_free(*old(self)) == Some(lease.spec_group_id() as int)
                    &&& lease.spec_cores() == old(self).spec_group_cores(
                        lease.spec_group_id() as int,
                    )
                    &&& claim_step(*old(self), *final(self), lease.spec_group_id() as int)
                },
            },
    {
        let mut g: usize = 0;
        while g < self.groups.len()
            invariant
                old(self).wf(),
                g <= self.groups@.len(),
                *self == *old(self),
                forall|j: int| 0 <= j < g ==> old(self).spec_claimed(j),
            decreases self.groups@.len() - g,
        {
            if !self.groups[g].resource.is_taken() {
                proof {
                    assert(!old(self).spec_claimed(g as int));
                    lemma_first_free_at(*old(self), g as int);
                }
                let res = self.groups[g].resource.try_lock();
                match res {
                    Ok(handle) => {
                        let ids = clone_ids(&self.groups[g].group);
                        proof {
                            assert(self.groups@.len() == old(self).groups@.len());
                            assert forall|j: int|
                                0 <= j < self.groups@.len() && j != g as int implies #[trigger] self.groups@[j] == old(
                                self,
                            ).groups@[j] by {}
                            assert(self.groups@[g as int].group@ == old(
                                self,
                            ).groups@[g as int].group@);
                            assert(self.groups@[g as int].resource.spec_taken());
                            assert(self.cores@ == old(self).cores@);
                            lemma_wf_groups_pointwise(*old(self), *self);
                            assert(ids@ == old(self).spec_group_cores(g as int));
                        }
                        return Some(CoreGroup::cores(handle, g, ids));
                    },
                    Err(_) => {
                        proof {
                            assert(false);
                        }
                        return None;
                    },
                }
            }
            proof {
                assert(old(self).spec_claimed(g as int));
            }
            g += 1;
        }
        proof {
            lemma_first_free_none(*old(self), 0);
        }
        None
    }
}

/// Builds registries by slicing a contiguous core-id range into fixed-width
/// chunks.
pub struct SequentialAllocator;

impl SequentialAllocator {
    /// How many whole groups the range yields.
    pub open spec fn spec_group_total(range: Range<usize>, width: usize) -> int {
        if width == 0 || range.start > range.end {
            0
        } else {
            ((range.end - range.start) as int) / (width as int)
        }
    }

    /// Slice `range` into contiguous groups of `width` cores each, in range
    /// order; a trailing remainder shorter than `width` is dropped, and a
    /// zero width yields no groups.
    pub fn new_range(range: Range<usize>, width: usize) -> (r: GroupedAllocator)
        requires
            range.end <= CPU_SET_CAPACITY,
        ensures
            r.wf(),
            r.spec_group_count() == Self::spec_group_total(range, width),
            forall|g: int| 0 <= g < r.spec_group_count() ==> !(#[trigger] r.spec_claimed(g)),
            forall|g: int|
                0 <= g < r.spec_group_count() ==> (#[trigger] r.spec_group_cores(g)).len()
                    == width,
            forall|g: int, k: int|
                0 <= g < r.spec_group_count() && 0 <= k < width ==> (#[trigger] r.spec_group_cores(
                    g,
                )[k]) == range.start + g * width + k,
            forall|id: usize|
                #[trigger] r.spec_has_core(id) <==> (range.start <= id && (id as int)
                    < range.start + Self::spec_group_total(range, width) * width),
            forall|id: usize| !(#[trigger] r.spec_occupied(id)),
    {
        let mut groups = GroupedAllocator::new();
        if width == 0 || range.end <= range.start {
            return groups;
        }
        let total: usize = (range.end - range.start) / width;
        proof {
            assert(total == Self::spec_group_total(range, width));
            vstd::arithmetic::div_mod::lemma_fundamental_div_mod(
                (range.end - range.start) as int,
                width as int,
            );
            vstd::arithmetic::div_mod::lemma_mod_bound(
                (range.end - range.start) as int,
                width as int,
            );
            assert((total as int) * (width as int) <= (range.end - range.start) as int);
        }
        let mut g: usize = 0;
        while g < total
            invariant
                1 <= width,
                range.start < range.end <= CPU_SET_CAPACITY,
                total == Self::spec_group_total(range, width),
                (total as int) * (width as int) <= (range.end - range.start) as int,
                g <= total,
                groups.wf(),
                groups.spec_group_count() == g,
                forall|j: int| 0 <= j < g ==> !(#[trigger] groups.spec_claimed(j)),
                forall|j: int|
                    0 <= j < g ==> (#[trigger] groups.spec_group_cores(j)).len() == width,
                forall|j: int, k: int|
                    0 <= j < g && 0 <= k < width ==> (#[trigger] groups.spec_group_cores(j)[k])
                        == range.start + j * width + k,
                forall|id: usize|
                    #[trigger] groups.spec_has_core(id) <==> (range.start <= id && (id as int)
                        < range.start + g * width),
                forall|id: usize| !(#[trigger] groups.spec_occupied(id)),
            decreases total - g,
        {
            proof {
                assert((g + 1) * width <= total * width) by (nonlinear_arith)
                    requires
                        g + 1 <= total,
                        width >= 1,
                ;
                assert(g * width + width == (g + 1) * width) by (nonlinear_arith);
                assert(g * width >= 0) by (nonlinear_arith)
                    requires
                        g >= 0,
                        width >= 1,
                ;
            }
            let base: usize = range.start + g * width;
            let mut cores: Vec<ManagedCore> = Vec::new();
            let mut k: usize = 0;
            while k < width
                invariant
                    k <= width,
                    base + width <= CPU_SET_CAPACITY,
                    cores@.len() == k,
                    forall|j: int|
                        0 <= j < k ==> (#[trigger] cores@[j]).spec_index() == base + j
                            && !cores@[j].spec_occupied(),
                decreases width - k,
            {
                cores.push(ManagedCore::new(base + k));
                k += 1;
            }
            proof {
                assert(cores@.len() == width);
            }
            let ghost prev = groups;
            groups.add_group(cores);
            proof {
                assert forall|id: usize|
                    #[trigger] groups.spec_has_core(id) <==> (range.start <= id && (id as int)
                        < range.start + (g + 1) * width) by {
                    if exists|kk: int|
                        0 <= kk < cores@.len() && (#[trigger] cores@[kk]).spec_index() == id {
                        let kk = choose|kk: int|
                            0 <= kk < cores@.len() && (#[trigger] cores@[kk]).spec_index() == id;
                        assert(id == base + kk);
                    }
                    if base <= id && (id as int) < base + width {
                        let kk = id - base;
                        assert(cores@[kk as int].spec_index() == id);
                    }
                }
                assert forall|j: int, k2: int|
                    0 <= j < g + 1 && 0 <= k2 < width implies (#[trigger] groups.spec_group_cores(
                    j,
                )[k2]) == range.start + j * width + k2 by {
                    if j < g {
                        assert(groups.spec_groups()[j] == prev.spec_groups()[j]);
                        assert(prev.spec_group_cores(j)[k2] == range.start + j * width + k2);
                    } else {
                        assert(groups.spec_group_cores(j)[k2] == cores@[k2].spec_index());
                    }
                }
                assert forall|j: int|
                    0 <= j < g + 1 implies (#[trigger] groups.spec_group_cores(j)).len()
                    == width by {
                    if j < g {
                        assert(groups.spec_groups()[j] == prev.spec_groups()[j]);
                        assert(prev.spec_group_cores(j).len() == width);
                    } else {
                        assert(j == prev.spec_group_count());
                        assert(groups.spec_group_cores(j).len() == cores@.len());
                    }
                }
                assert forall|j: int| 0 <= j < g + 1 implies !(#[trigger] groups.spec_claimed(
                    j,
                )) by {
                    if j < g {
                        assert(groups.spec_groups()[j] == prev.spec_groups()[j]);
                        assert(!prev.spec_claimed(j));
                    } else {
                        assert(j == prev.spec_group_count());
                        assert(!groups.spec_claimed(prev.spec_group_count()));
                    }
                }
            }
            g += 1;
        }
        groups
    }
}

/// A hardware-grouping granularity of the topology provider.
#[derive(Clone, Copy, Debug, PartialEq, Eq, Structural)]
pub enum HierarchyLevel {
    /// Units that share a last-level cache; construction splits each such
    /// unit into its physical and hyperthread halves.
    LastLevelCache,
    /// One unit per physical CPU package.
    PhysicalPackage,
}

/// One hardware unit at the requested granularity, as plain values.
pub struct TopologyUnit {
    /// The CPU ids this unit covers.
    pub cpuset: Vec<usize>,
    /// The cpu-sets of the unit's children one level below; read at
    /// last-level-cache granularity, where each child must hold exactly two
    /// ids (a physical CPU and its hyperthread).
    pub children: Vec<Vec<usize>>,
}

/// What the topology provider reports: the per-package cpu-sets, and the
/// units at the requested granularity.
pub struct Topology {
    pub packages: Vec<Vec<usize>>,
    pub units: Vec<TopologyUnit>,
}

impl TopologyUnit {
    /// The provider yields a partition: ids are addressable, distinct
    /// within the unit, and the children's sets are pairwise disjoint.
    pub open spec fn wf(&self) -> bool {
        &&& forall|k: int| 0 <= k < self.cpuset@.len() ==> (#[trigger] self.cpuset@[k]) < CPU_SET_CAPACITY
        &&& forall|k1: int, k2: int|
            0 <= k1 < k2 < self.cpuset@.len() ==> (#[trigger] self.cpuset@[k1]) != (
            #[trigger] self.cpuset@[k2])
        &&& forall|c: int, k: int|
            0 <= c < self.children@.len() && 0 <= k < self.children@[c]@.len() ==> (
            #[trigger] self.children@[c]@[k]) < CPU_SET_CAPACITY
        &&& forall|c1: int, k1: int, c2: int, k2: int|
            0 <= c1 < c2 < self.children@.len() && 0 <= k1 < self.children@[c1]@.len() && 0 <= k2
                < self.children@[c2]@.len() ==> (#[trigger] self.children@[c1]@[k1]) != (
            #[trigger] self.children@[c2]@[k2])
    }
}

impl Topology {
    pub open spec fn wf(&self) -> bool {
        forall|u: int| 0 <= u < self.units@.len() ==> (#[trigger] self.units@[u]).wf()
    }
}

/// The plain view of a list of cpu-sets.
pub open spec fn spec_id_sets(v: Seq<Vec<usize>>) -> Seq<Seq<usize>> {
    v.map_values(|x: Vec<usize>| x@)
}

/// The plain view of an optional package allow-list.
pub open spec fn spec_opt_view(on: Option<Vec<usize>>) -> Option<Seq<usize>> {
    match on {
        Some(v) => Some(v@),
        None => None,
    }
}

/// Whether core `id` passes the package restriction: with no allow-list
/// every id passes; with one, the id must lie in some allowed package.
pub open spec fn spec_allowed(on: Option<Seq<usize>>, pk: Seq<Seq<usize>>, id: usize) -> bool {
    match on {
        None => true,
        Some(list) => exists|i: int|
            0 <= i < pk.len() && list.contains(i as usize) && (#[trigger] pk[i]).contains(id),
    }
}

/// The ids that pass the package restriction, in order.
pub open spec fn spec_keep(ids: Seq<usize>, on: Option<Seq<usize>>, pk: Seq<Seq<usize>>) -> Seq<
    usize,
>
    decreases ids.len(),
{
    if ids.len() == 0 {
        Seq::empty()
    } else {
        let rest = spec_keep(ids.drop_last(), on, pk);
        if spec_allowed(on, pk, ids.last()) {
            rest.push(ids.last())
        } else {
            rest
        }
    }
}

/// The first id of each child cpu-set: the physical half.
pub open spec fn spec_firsts(u: TopologyUnit) -> Seq<usize> {
    Seq::new(u.children@.len(), |c: int| u.children@[c]@[0])
}

/// The second id of each child cpu-set: the hyperthread half.
pub open spec fn spec_seconds(u: TopologyUnit) -> Seq<usize> {
    Seq::new(u.children@.len(), |c: int| u.children@[c]@[1])
}

/// The groups one unit contributes, in order: at last-level-cache
/// granularity its physical and hyperthread halves (each restricted to the
/// allowed packages, and dropped when empty), otherwise its restricted
/// cpu-set.
pub open spec fn spec_unit_groups(
    u: TopologyUnit,
    level: HierarchyLevel,
    on: Option<Seq<usize>>,
    pk: Seq<Seq<usize>>,
) -> Seq<Seq<usize>> {
    if level is LastLevelCache {
        let p = spec_keep(spec_firsts(u), on, pk);
        let h = spec_keep(spec_seconds(u), on, pk);
        (if p.len() > 0 {
            seq![p]
        } else {
            Seq::empty()
        }) + (if h.len() > 0 {
            seq![h]
        } else {
            Seq::empty()
        })
    } else {
        let c = spec_keep(u.cpuset@, on, pk);
        if c.len() > 0 {
            seq![c]
        } else {
            Seq::empty()
        }
    }
}

/// The groups the whole topology yields, unit by unit in order.
pub open spec fn spec_topo_groups(
    units: Seq<TopologyUnit>,
    level: HierarchyLevel,
    on: Option<Seq<usize>>,
    pk: Seq<Seq<usize>>,
) -> Seq<Seq<usize>>
    decreases units.len(),
{
    if units.len() == 0 {
        Seq::empty()
    } else {
        spec_topo_groups(units.drop_last(), level, on, pk) + spec_unit_groups(
            units.last(),
            level,
            on,
            pk,
        )
    }
}

/// Some unit has a child with other than exactly two cpu ids: the
/// partitioning assumption for cache splitting is broken.
pub open spec fn spec_bad_split(units: Seq<TopologyUnit>) -> bool {
    exists|u: int, c: int|
        0 <= u < units.len() && 0 <= c < units[u].children@.len() && (
        #[trigger] units[u].children@[c])@.len() != 2
}

/// Whether `v` lists the id `x`.
fn contains_id(v: &Vec<usize>, x: usize) -> (r: bool)
    ensures
        r == v@.contains(x),
{
    let mut i: usize = 0;
    while i < v.len()
        invariant
            i <= v@.len(),
            forall|j: int| 0 <= j < i ==> v@[j] != x,
        decreases v@.len() - i,
    {
        if v[i] == x {
            return true;
        }
        i += 1;
    }
    proof {
        if v@.contains(x) {
            let j = choose|j: int| 0 <= j < v@.len() && v@[j] == x;
            assert(false);
        }
    }
    false
}

/// Whether core `id` passes the package restriction.
fn is_allowed(on_cpus: &Option<Vec<usize>>, packages: &Vec<Vec<usize>>, id: usize) -> (r: bool)
    ensures
        r == spec_allowed(spec_opt_view(*on_cpus), spec_id_sets(packages@), id),
{
    match on_cpus {
        None => true,
        Some(list) => {
            let mut i: usize = 0;
            while i < packages.len()
                invariant
                    i <= packages@.len(),
                    spec_opt_view(*on_cpus) == Some(list@),
                    forall|ii: int|
                        0 <= ii < i ==> !(list@.contains(ii as usize) && (
                        #[trigger] spec_id_sets(packages@)[ii]).contains(id)),
                decreases packages@.len() - i,
            {
                if contains_id(list, i) && contains_id(&packages[i], id) {
                    proof {
                        assert(spec_id_sets(packages@)[i as int] == packages@[i as int]@);
                        assert(spec_opt_view(*on_cpus) == Some(list@));
                        assert((i as int) < spec_id_sets(packages@).len() && list@.contains(i)
                            && spec_id_sets(packages@)[i as int].contains(id));
                    }
                    return true;
                }
                proof {
                    assert(spec_id_sets(packages@)[i as int] == packages@[i as int]@);
                }
                i += 1;
            }
            proof {
                if spec_allowed(spec_opt_view(*on_cpus), spec_id_sets(packages@), id) {
                    let ii = choose|ii: int|
                        0 <= ii < spec_id_sets(packages@).len() && list@.contains(ii as usize) && (
                        #[trigger] spec_id_sets(packages@)[ii]).contains(id);
                    assert(false);
                }
            }
            false
        },
    }
}

/// Keep the ids that pass the package restriction, in order.
fn filter_allowed(ids: &Vec<usize>, on_cpus: &Option<Vec<usize>>, packages: &Vec<Vec<usize>>) -> (r:
    Vec<usize>)
    ensures
        r@ == spec_keep(ids@, spec_opt_view(*on_cpus), spec_id_sets(packages@)),
{
    let ghost on = spec_opt_view(*on_cpus);
    let ghost pk = spec_id_sets(packages@);
    let mut r: Vec<usize> = Vec::new();
    let mut k: usize = 0;
    while k < ids.len()
        invariant
            k <= ids@.len(),
            on == spec_opt_view(*on_cpus),
            pk == spec_id_sets(packages@),
            r@ == spec_keep(ids@.take(k as int), on, pk),
        decreases ids@.len() - k,
    {
        let keep = is_allowed(on_cpus, packages, ids[k]);
        if keep {
            r.push(ids[k]);
        }
        proof {
            let t1 = ids@.take(k + 1);
            assert(t1.drop_last() =~= ids@.take(k as int));
            assert(t1.last() == ids@[k as int]);
            assert(spec_keep(t1, on, pk) == if spec_allowed(on, pk, ids@[k as int]) {
                spec_keep(ids@.take(k as int), on, pk).push(ids@[k as int])
            } else {
                spec_keep(ids@.take(k as int), on, pk)
            });
        }
        k += 1;
    }
    proof {
        assert(ids@.take(ids@.len() as int) =~= ids@);
    }
    r
}

/// What `spec_keep` holds: a subset of the ids, distinct when they are.
proof fn lemma_keep_distinct(ids: Seq<usize>, on: Option<Seq<usize>>, pk: Seq<Seq<usize>>)
    requires
        forall|i1: int, i2: int| 0 <= i1 < i2 < ids.len() ==> ids[i1] != ids[i2],
    ensures
        forall|j: int|
            0 <= j < spec_keep(ids, on, pk).len() ==> ids.contains(
                #[trigger] spec_keep(ids, on, pk)[j],
            ),
        forall|j1: int, j2: int|
            0 <= j1 < j2 < spec_keep(ids, on, pk).len() ==> spec_keep(ids, on, pk)[j1] != spec_keep(
                ids,
                on,
                pk,
            )[j2],
    decreases ids.len(),
{
    if ids.len() > 0 {
        let rest = ids.drop_last();
        lemma_keep_distinct(rest, on, pk);
        let kept = spec_keep(ids, on, pk);
        let krest = spec_keep(rest, on, pk);
        assert forall|j: int| 0 <= j < kept.len() implies ids.contains(#[trigger] kept[j]) by {
            if j < krest.len() {
                assert(rest.contains(krest[j]));
                let i = choose|i: int| 0 <= i < rest.len() && rest[i] == krest[j];
                assert(ids[i] == krest[j]);
            } else {
                assert(kept[j] == ids.last());
                assert(ids[ids.len() - 1] == ids.last());
            }
        }
        assert forall|j1: int, j2: int|
            0 <= j1 < j2 < kept.len() implies kept[j1] != kept[j2] by {
            if j2 < krest.len() {
            } else if j2 == krest.len() && kept.len() > krest.len() {
                assert(kept[j2] == ids.last());
                assert(rest.contains(krest[j1]));
                let i = choose|i: int| 0 <= i < rest.len() && rest[i] == krest[j1];
                assert(ids[i] == kept[j1]);
                assert(ids[i] != ids[ids.len() - 1]);
            }
        }
    }
}

/// Builds registries from a topology snapshot at a chosen granularity,
/// optionally restricted to an allow-list of CPU packages.
pub struct HierarchicalAllocator {
    level: HierarchyLevel,
    on_cpus: Option<Vec<usize>>,
}

impl HierarchicalAllocator {
    pub closed spec fn spec_level(&self) -> HierarchyLevel {
        self.level
    }

    pub closed spec fn spec_on(&self) -> Option<Seq<usize>> {
        spec_opt_view(self.on_cpus)
    }

    /// Group at the given granularity, with no package restriction.
    pub fn new_at_depth(level: HierarchyLevel) -> (r: HierarchicalAllocator)
        ensures
            r.spec_level() == level,
            r.spec_on() is None,
    {
        HierarchicalAllocator { level, on_cpus: None }
    }

    /// Restrict construction to the packages whose indices are listed.
    pub fn on_cpu(self, on_cpus: Vec<usize>) -> (r: HierarchicalAllocator)
        ensures
            r.spec_level() == self.spec_level(),
            r.spec_on() == Some(on_cpus@),
    {
        HierarchicalAllocator { level: self.level, on_cpus: Some(on_cpus) }
    }

    /// Build the registry the topology snapshot dictates.  At
    /// last-level-cache granularity a child with other than exactly two
    /// cpu ids is a fatal construction error: no partial registry is
    /// produced.
    #[verifier::rlimit(50)]
    pub fn finish(self, topo: &Topology) -> (r: Result<GroupedAllocator, CoreError>)
        requires
            topo.wf(),
        ensures
            (self.spec_level() is LastLevelCache && spec_bad_split(topo.units@)) ==> r == Err::<
                GroupedAllocator,
                CoreError,
            >(CoreError::TopologyConstructionInvariantViolated),
            !(self.spec_level() is LastLevelCache && spec_bad_split(topo.units@)) ==> (r matches Ok(
                a,
            ) && a.wf() && matches_groups(
                a,
                spec_topo_groups(
                    topo.units@,
                    self.spec_level(),
                    self.spec_on(),
                    spec_id_sets(topo.packages@),
                ),
            )),
    {
        let ghost on = self.spec_on();
        let ghost pk = spec_id_sets(topo.packages@);
        let ghost level = self.spec_level();
        let is_llc = self.level == HierarchyLevel::LastLevelCache;
        let mut groups = GroupedAllocator::new();
        proof {
            assert(topo.units@.take(0) =~= Seq::<TopologyUnit>::empty());
            assert(matches_groups(groups, spec_topo_groups(topo.units@.take(0), level, on, pk)));
        }
        let mut u: usize = 0;
        while u < topo.units.len()
            invariant
                u <= topo.units@.len(),
                topo.wf(),
                groups.wf(),
                on == self.spec_on(),
                pk == spec_id_sets(topo.packages@),
                level == self.spec_level(),
                is_llc == (level is LastLevelCache),
                is_llc ==> !spec_bad_split(topo.units@.take(u as int)),
                matches_groups(groups, spec_topo_groups(topo.units@.take(u as int), level, on, pk)),
            decreases topo.units@.len() - u,
        {
            let ghost gpre = spec_topo_groups(topo.units@.take(u as int), level, on, pk);
            let unit = &topo.units[u];
            let ghost uval = topo.units@[u as int];
            proof {
                assert(uval.wf());
            }
            if is_llc {
                let mut phys: Vec<usize> = Vec::new();
                let mut hypers: Vec<usize> = Vec::new();
                let mut c: usize = 0;
                while c < unit.children.len()
                    invariant
                        c <= uval.children@.len(),
                        *unit == uval,
                        uval == topo.units@[u as int],
                        u < topo.units@.len(),
                        uval.wf(),
                        self.spec_level() is LastLevelCache,
                        phys@.len() == c,
                        hypers@.len() == c,
                        forall|j: int| 0 <= j < c ==> (#[trigger] uval.children@[j])@.len() == 2,
                        forall|j: int| 0 <= j < c ==> (#[trigger] phys@[j]) == uval.children@[j]@[0],
                        forall|j: int|
                            0 <= j < c ==> (#[trigger] hypers@[j]) == uval.children@[j]@[1],
                    decreases uval.children@.len() - c,
                {
                    if unit.children[c].len() != 2 {
                        proof {
                            assert(uval.children@[c as int]@.len() != 2);
                            assert(topo.units@[u as int].children@[c as int]@.len() != 2);
                            assert(spec_bad_split(topo.units@));
                        }
                        return Err(CoreError::TopologyConstructionInvariantViolated);
                    }
                    phys.push(unit.children[c][0]);
                    hypers.push(unit.children[c][1]);
                    c += 1;
                }
                proof {
                    assert(phys@ =~= spec_firsts(uval));
                    assert(hypers@ =~= spec_seconds(uval));
                    // the halves are distinct id lists: children are disjoint
                    assert forall|i1: int, i2: int|
                        0 <= i1 < i2 < phys@.len() implies phys@[i1] != phys@[i2] by {
                        assert(uval.children@[i1]@[0] != uval.children@[i2]@[0]);
                    }
                    assert forall|i1: int, i2: int|
                        0 <= i1 < i2 < hypers@.len() implies hypers@[i1] != hypers@[i2] by {
                        assert(uval.children@[i1]@[1] != uval.children@[i2]@[1]);
                    }
                    assert forall|j: int| 0 <= j < phys@.len() implies (#[trigger] phys@[j])
                        < CPU_SET_CAPACITY by {
                        assert(uval.children@[j]@[0] < CPU_SET_CAPACITY);
                    }
                    assert forall|j: int| 0 <= j < hypers@.len() implies (#[trigger] hypers@[j])
                        < CPU_SET_CAPACITY by {
                        assert(uval.children@[j]@[1] < CPU_SET_CAPACITY);
                    }
                }
                let cand_p = filter_allowed(&phys, &self.on_cpus, &topo.packages);
                let cand_h = filter_allowed(&hypers, &self.on_cpus, &topo.packages);
                proof {
                    lemma_keep_distinct(phys@, on, pk);
                    lemma_keep_distinct(hypers@, on, pk);
                }
                let ghost mut gcur = gpre;
                if cand_p.len() > 0 {
                    let cores = make_cores(&cand_p);
                    proof {
                        lemma_cores_for_add(cores@, cand_p@, phys@);
                    }
                    let ghost before = groups;
                    groups.add_group(cores);
                    proof {
                        lemma_after_add(before, groups, gcur, cores@, cand_p@);
                        gcur = gcur.push(cand_p@);
                    }
                }
                proof {
                    assert(matches_groups(groups, gcur));
                }
                if cand_h.len() > 0 {
                    let cores = make_cores(&cand_h);
                    proof {
                        lemma_cores_for_add(cores@, cand_h@, hypers@);
                    }
                    let ghost before = groups;
                    groups.add_group(cores);
                    proof {
                        lemma_after_add(before, groups, gcur, cores@, cand_h@);
                        gcur = gcur.push(cand_h@);
                    }
                }
                proof {
                    assert(matches_groups(groups, gcur));
                    lemma_unit_step(topo.units@, u as int, level, on, pk);
                    assert(spec_unit_groups(uval, level, on, pk) == (if cand_p@.len() > 0 {
                        seq![cand_p@]
                    } else {
                        Seq::<Seq<usize>>::empty()
                    }) + (if cand_h@.len() > 0 {
                        seq![cand_h@]
                    } else {
                        Seq::<Seq<usize>>::empty()
                    }));
                    let gnext = spec_topo_groups(topo.units@.take(u + 1), level, on, pk);
                    assert(gnext == gpre + spec_unit_groups(uval, level, on, pk));
                    if cand_p@.len() > 0 && cand_h@.len() > 0 {
                        assert(gcur == gpre.push(cand_p@).push(cand_h@));
                        assert(gnext =~= gcur);
                    } else if cand_p@.len() > 0 {
                        assert(gcur == gpre.push(cand_p@));
                        assert(gnext =~= gcur);
                    } else if cand_h@.len() > 0 {
                        assert(gcur == gpre.push(cand_h@));
                        assert(gnext =~= gcur);
                    } else {
                        assert(gcur == gpre);
                        assert(gnext =~= gcur);
                    }
                    assert(matches_groups(groups, gnext));
                }
            } else {
                let cand = filter_allowed(&unit.cpuset, &self.on_cpus, &topo.packages);
                proof {
                    lemma_keep_distinct(uval.cpuset@, on, pk);
                }
                let ghost mut gcur = gpre;
                if cand.len() > 0 {
                    let cores = make_cores(&cand);
                    proof {
                        lemma_cores_for_add(cores@, cand@, uval.cpuset@);
                    }
                    let ghost before = groups;
                    groups.add_group(cores);
                    proof {
                        lemma_after_add(before, groups, gcur, cores@, cand@);
                        gcur = gcur.push(cand@);
                    }
                }
                proof {
                    assert(matches_groups(groups, gcur));
                    lemma_unit_step(topo.units@, u as int, level, on, pk);
                    assert(spec_unit_groups(uval, level, on, pk) == (if cand@.len() > 0 {
                        seq![cand@]
                    } else {
                        Seq::<Seq<usize>>::empty()
                    }));
                    let gnext = spec_topo_groups(topo.units@.take(u + 1), level, on, pk);
                    assert(gnext == gpre + spec_unit_groups(uval, level, on, pk));
                    if cand@.len() > 0 {
                        assert(gcur == gpre.push(cand@));
                        assert(gnext =~= gcur);
                    } else {
                        assert(gcur == gpre);
                        assert(gnext =~= gcur);
                    }
                    assert(matches_groups(groups, gnext));
                }
            }
            proof {
                if is_llc {
                    assert forall|uu: int, cc: int|
                        0 <= uu < topo.units@.take(u + 1).len() && 0 <= cc < topo.units@.take(
                            u + 1,
                        )[uu].children@.len() implies (#[trigger] topo.units@.take(
                        u + 1,
                    )[uu].children@[cc])@.len() == 2 by {
                        assert(topo.units@.take(u + 1)[uu] == topo.units@[uu]);
                        if uu < u {
                            assert(!spec_bad_split(topo.units@.take(u as int)));
                            assert(topo.units@.take(u as int)[uu] == topo.units@[uu]);
                            if topo.units@[uu].children@[cc]@.len() != 2 {
                                assert(spec_bad_split(topo.units@.take(u as int)));
                            }
                        }
                    }
                }
            }
            u += 1;
        }
        proof {
            assert(topo.units@.take(topo.units@.len() as int) =~= topo.units@);
        }
        Ok(groups)
    }
}

/// Fresh, unoccupied cores with the listed ids, in order.
fn make_cores(ids: &Vec<usize>) -> (r: Vec<ManagedCore>)
    ensures
        r@.len() == ids@.len(),
        forall|k: int|
            0 <= k < ids@.len() ==> (#[trigger] r@[k]).spec_index() == ids@[k]
                && !r@[k].spec_occupied(),
{
    let mut r: Vec<ManagedCore> = Vec::new();
    let mut k: usize = 0;
    while k < ids.len()
        invariant
            k <= ids@.len(),
            r@.len() == k,
            forall|j: int|
                0 <= j < k ==> (#[trigger] r@[j]).spec_index() == ids@[j]
                    && !r@[j].spec_occupied(),
        decreases ids@.len() - k,
    {
        r.push(ManagedCore::new(ids[k]));
        k += 1;
    }
    r
}

/// Unfold one unit of the topology grouping.
proof fn lemma_unit_step(
    units: Seq<TopologyUnit>,
    u: int,
    level: HierarchyLevel,
    on: Option<Seq<usize>>,
    pk: Seq<Seq<usize>>,
)
    requires
        0 <= u < units.len(),
    ensures
        spec_topo_groups(units.take(u + 1), level, on, pk) == spec_topo_groups(
            units.take(u),
            level,
            on,
            pk,
        ) + spec_unit_groups(units[u], level, on, pk),
{
    let t1 = units.take(u + 1);
    assert(t1.drop_last() =~= units.take(u));
    assert(t1.last() == units[u]);
}

/// Group cores built from a restricted id list satisfy what registering a
/// group asks: distinct, addressable, occupancy free.
proof fn lemma_cores_for_add(cores: Seq<ManagedCore>, cand: Seq<usize>, src: Seq<usize>)
    requires
        cores.len() == cand.len(),
        forall|k: int|
            0 <= k < cand.len() ==> (#[trigger] cores[k]).spec_index() == cand[k]
                && !cores[k].spec_occupied(),
        forall|j1: int, j2: int| 0 <= j1 < j2 < cand.len() ==> cand[j1] != cand[j2],
        forall|j: int| 0 <= j < cand.len() ==> src.contains(#[trigger] cand[j]),
        forall|k: int| 0 <= k < src.len() ==> (#[trigger] src[k]) < CPU_SET_CAPACITY,
    ensures
        forall|k1: int, k2: int|
            0 <= k1 < k2 < cores.len() ==> (#[trigger] cores[k1]).spec_index() != (
            #[trigger] cores[k2]).spec_index(),
        forall|k: int|
            0 <= k < cores.len() ==> (#[trigger] cores[k]).spec_index() < CPU_SET_CAPACITY
                && !cores[k].spec_occupied(),
{
    assert forall|k: int|
        0 <= k < cores.len() implies (#[trigger] cores[k]).spec_index() < CPU_SET_CAPACITY
        && !cores[k].spec_occupied() by {
        assert(src.contains(cand[k]));
        let i = choose|i: int| 0 <= i < src.len() && src[i] == cand[k];
        assert(src[i] < CPU_SET_CAPACITY);
    }
}

/// After adding one group of fresh cores to a registry that matched
/// `gpre`, the registry matches `gpre` plus that group.
proof fn lemma_after_add(
    before: GroupedAllocator,
    after: GroupedAllocator,
    gpre: Seq<Seq<usize>>,
    cores: Seq<ManagedCore>,
    added: Seq<usize>,
)
    requires
        cores.len() == added.len(),
        forall|k: int| 0 <= k < added.len() ==> (#[trigger] cores[k]).spec_index() == added[k],
        matches_groups(before, gpre),
        after.spec_group_count() == before.spec_group_count() + 1,
        forall|gg: int|
            0 <= gg < before.spec_group_count() ==> #[trigger] after.spec_groups()[gg]
                == before.spec_groups()[gg],
        after.spec_group_cores(before.spec_group_count()).len() == cores.len(),
        forall|kk: int|
            0 <= kk < cores.len() ==> #[trigger] after.spec_group_cores(
                before.spec_group_count(),
            )[kk] == cores[kk].spec_index(),
        !after.spec_claimed(before.spec_group_count()),
        forall|id: usize|
            #[trigger] after.spec_has_core(id) <==> (before.spec_has_core(id) || exists|k: int|
                0 <= k < cores.len() && (#[trigger] cores[k]).spec_index() == id),
        forall|id: usize| #[trigger] after.spec_occupied(id) == before.spec_occupied(id),
    ensures
        matches_groups(after, gpre.push(added)),
{
    let gnew = gpre.push(added);
    assert forall|gg: int|
        0 <= gg < gnew.len() implies (#[trigger] after.spec_group_cores(gg)) == gnew[gg]
        && !after.spec_claimed(gg) by {
        if gg < gpre.len() {
            assert(after.spec_groups()[gg] == before.spec_groups()[gg]);
            assert(before.spec_group_cores(gg) == gpre[gg]);
        } else {
            assert(after.spec_group_cores(gg) =~= added);
        }
    }
    assert forall|id: usize|
        #[trigger] after.spec_has_core(id) <==> exists|gg: int, kk: int|
            0 <= gg < gnew.len() && 0 <= kk < gnew[gg].len() && (#[trigger] gnew[gg][kk])
                == id by {
        if after.spec_has_core(id) {
            if before.spec_has_core(id) {
                let (gg, kk) = choose|gg: int, kk: int|
                    0 <= gg < gpre.len() && 0 <= kk < gpre[gg].len() && (#[trigger] gpre[gg][kk])
                        == id;
                assert(gnew[gg][kk] == id);
            } else {
                let k = choose|k: int|
                    0 <= k < cores.len() && (#[trigger] cores[k]).spec_index() == id;
                assert(added[k] == id);
                assert(gnew[gpre.len() as int][k] == id);
            }
        }
        if exists|gg: int, kk: int|
            0 <= gg < gnew.len() && 0 <= kk < gnew[gg].len() && (#[trigger] gnew[gg][kk]) == id {
            let (gg, kk) = choose|gg: int, kk: int|
                0 <= gg < gnew.len() && 0 <= kk < gnew[gg].len() && (#[trigger] gnew[gg][kk]) == id;
            if gg < gpre.len() {
                assert(gpre[gg][kk] == id);
                assert(before.spec_has_core(id));
            } else {
                assert(added[kk] == id);
                assert(cores[kk].spec_index() == id);
            }
        }
    }
}

/// The registry holds exactly the groups `gs`, in order, all unclaimed,
/// over a table of exactly their ids, all unoccupied.
pub open spec fn matches_groups(s: GroupedAllocator, gs: Seq<Seq<usize>>) -> bool {
    &&& s.spec_group_count() == gs.len()
    &&& forall|gg: int|
        0 <= gg < gs.len() ==> (#[trigger] s.spec_group_cores(gg)) == gs[gg] && !s.spec_claimed(gg)
    &&& forall|id: usize|
        #[trigger] s.spec_has_core(id) <==> exists|gg: int, kk: int|
            0 <= gg < gs.len() && 0 <= kk < gs[gg].len() && (#[trigger] gs[gg][kk]) == id
    &&& forall|id: usize| !(#[trigger] s.spec_occupied(id))
}

/// Two registries hold the same observable state.
pub open spec fn same_state(pre: GroupedAllocator, post: GroupedAllocator) -> bool {
    &&& post.spec_groups() == pre.spec_groups()
    &&& post.spec_core_ids() == pre.spec_core_ids()
    &&& forall|x: usize| #[trigger] post.spec_occupied(x) == pre.spec_occupied(x)
}

/// The registry gains `id`'s occupancy: everything else is unchanged.
pub open spec fn occupy_step(pre: GroupedAllocator, post: GroupedAllocator, id: usize) -> bool {
    &&& post.spec_groups() == pre.spec_groups()
    &&& post.spec_core_ids() == pre.spec_core_ids()
    &&& post.spec_occupied(id)
    &&& forall|x: usize| x != id ==> #[trigger] post.spec_occupied(x) == pre.spec_occupied(x)
}

/// The registry loses `id`'s occupancy: everything else is unchanged.
pub open spec fn vacate_step(pre: GroupedAllocator, post: GroupedAllocator, id: usize) -> bool {
    &&& post.spec_groups() == pre.spec_groups()
    &&& post.spec_core_ids() == pre.spec_core_ids()
    &&& forall|x: usize| #[trigger] post.spec_occupied(x) == (pre.spec_occupied(x) && x != id)
}

/// Group `g` goes from free to claimed: everything else is unchanged.
pub open spec fn claim_step(pre: GroupedAllocator, post: GroupedAllocator, g: int) -> bool {
    &&& 0 <= g < pre.spec_group_count()
    &&& !pre.spec_claimed(g)
    &&& post.spec_group_count() == pre.spec_group_count()
    &&& forall|j: int|
        0 <= j < pre.spec_group_count() ==> #[trigger] post.spec_group_cores(j)
            == pre.spec_group_cores(j)
    &&& post.spec_claimed(g)
    &&& forall|j: int|
        0 <= j < pre.spec_group_count() && j != g ==> #[trigger] post.spec_claimed(j)
            == pre.spec_claimed(j)
    &&& post.spec_core_ids() == pre.spec_core_ids()
    &&& forall|x: usize| #[trigger] post.spec_occupied(x) == pre.spec_occupied(x)
}

/// Group `g`'s claim is given up: everything else is unchanged.
pub open spec fn unclaim_step(pre: GroupedAllocator, post: GroupedAllocator, g: int) -> bool {
    &&& post.spec_group_count() == pre.spec_group_count()
    &&& forall|j: int|
        0 <= j < pre.spec_group_count() ==> #[trigger] post.spec_group_cores(j)
            == pre.spec_group_cores(j)
    &&& (0 <= g < pre.spec_group_count() ==> !post.spec_claimed(g))
    &&& forall|j: int|
        0 <= j < pre.spec_group_count() && j != g ==> #[trigger] post.spec_claimed(j)
            == pre.spec_claimed(j)
    &&& post.spec_core_ids() == pre.spec_core_ids()
    &&& forall|x: usize| #[trigger] post.spec_occupied(x) == pre.spec_occupied(x)
}

/// The first free group at or after `i`, in construction order.
pub open spec fn first_free_from(s: GroupedAllocator, i: int) -> Option<int>
    decreases s.spec_group_count() - i,
{
    if i < 0 || i >= s.spec_group_count() {
        None
    } else if !s.spec_claimed(i) {
        Some(i)
    } else {
        first_free_from(s, i + 1)
    }
}

/// The group an allocation returns: the first free one.
pub open spec fn spec_first_free(s: GroupedAllocator) -> Option<int> {
    first_free_from(s, 0)
}

/// The table entry at a known position is what `spec_core_at` names.
proof fn lemma_core_at_pos(s: GroupedAllocator, id: usize, pos: int)
    requires
        s.wf(),
        0 <= pos < s.cores@.len(),
        s.cores@[pos].spec_index() == id,
    ensures
        s.spec_core_at(id) == s.cores@[pos],
{
    assert(exists|p: int|
        0 <= p < s.cores@.len() && (#[trigger] s.cores@[p]).spec_index() == id) by {
        assert(0 <= pos < s.cores@.len() && s.cores@[pos].spec_index() == id);
    }
    let p = choose|p: int| 0 <= p < s.cores@.len() && (#[trigger] s.cores@[p]).spec_index() == id;
    assert(p == pos);
}

proof fn lemma_contains_push<A>(s: Seq<A>, x: A, y: A)
    ensures
        s.push(x).contains(y) <==> (s.contains(y) || y == x),
{
    if s.push(x).contains(y) {
        let i = choose|i: int| 0 <= i < s.push(x).len() && s.push(x)[i] == y;
        if i < s.len() {
            assert(s[i] == y);
        }
    }
    if s.contains(y) {
        let i = choose|i: int| 0 <= i < s.len() && s[i] == y;
        assert(s.push(x)[i] == y);
    }
    if y == x {
        assert(s.push(x)[s.len() as int] == y);
    }
}

/// After the table changed in one position without changing that entry's
/// id, the group list, the id list and the invariant carry over.
proof fn lemma_table_update(pre: GroupedAllocator, post: GroupedAllocator, pos: int, id: usize)
    requires
        pre.wf(),
        post.groups@ == pre.groups@,
        post.cores@.len() == pre.cores@.len(),
        0 <= pos < pre.cores@.len(),
        pre.cores@[pos].spec_index() == id,
        post.cores@[pos].spec_index() == id,
        forall|p: int| 0 <= p < pre.cores@.len() && p != pos ==> #[trigger] post.cores@[p] == pre.cores@[p],
    ensures
        post.wf(),
        post.spec_groups() == pre.spec_groups(),
        post.spec_core_ids() == pre.spec_core_ids(),
        forall|x: usize| x != id ==> #[trigger] post.spec_occupied(x) == pre.spec_occupied(x),
{
    assert(post.spec_groups() =~= pre.spec_groups());
    assert(post.spec_core_ids() =~= pre.spec_core_ids());
    assert forall|p: int, q: int|
        0 <= p < q < post.cores@.len() implies (#[trigger] post.cores@[p]).spec_index() != (
    #[trigger] post.cores@[q]).spec_index() by {
        assert(post.cores@[p].spec_index() == pre.cores@[p].spec_index());
        assert(post.cores@[q].spec_index() == pre.cores@[q].spec_index());
    }
    assert forall|x: usize| x != id implies #[trigger] post.spec_occupied(x) == pre.spec_occupied(
        x,
    ) by {
        if post.spec_occupied(x) {
            let p = choose|p: int|
                0 <= p < post.cores@.len() && (#[trigger] post.cores@[p]).spec_index() == x
                    && post.cores@[p].spec_occupied();
            assert(p != pos);
            assert(pre.cores@[p] == post.cores@[p]);
        }
        if pre.spec_occupied(x) {
            let p = choose|p: int|
                0 <= p < pre.cores@.len() && (#[trigger] pre.cores@[p]).spec_index() == x
                    && pre.cores@[p].spec_occupied();
            assert(p != pos);
            assert(post.cores@[p] == pre.cores@[p]);
        }
    }
}

/// A registry whose groups agree pointwise with a well-formed one (same
/// cores per group, any claim flags) and whose table ids agree is itself
/// well-formed.
proof fn lemma_wf_groups_pointwise(pre: GroupedAllocator, post: GroupedAllocator)
    requires
        pre.wf(),
        post.cores@ == pre.cores@,
        post.groups@.len() == pre.groups@.len(),
        forall|j: int|
            0 <= j < pre.groups@.len() ==> (#[trigger] post.groups@[j]).group@
                == pre.groups@[j].group@,
    ensures
        post.wf(),
{
    assert(post.spec_core_ids() =~= pre.spec_core_ids());
    assert forall|g: int, k: int|
        0 <= g < post.groups@.len() && 0 <= k < (#[trigger] post.groups@[g]).group@.len() implies
        post.spec_has_core(#[trigger] post.groups@[g].group@[k]) && post.groups@[g].group@[k]
        < CPU_SET_CAPACITY by {
        assert(post.groups@[g].group@ == pre.groups@[g].group@);
        assert(pre.spec_has_core(pre.groups@[g].group@[k]));
    }
    assert forall|g: int|
        0 <= g < post.groups@.len() implies (#[trigger] post.groups@[g]).group@.len() > 0 by {
        assert(post.groups@[g].group@ == pre.groups@[g].group@);
    }
    assert forall|g: int, k1: int, k2: int|
        0 <= g < post.groups@.len() && 0 <= k1 < k2 < post.groups@[g].group@.len() implies (
    #[trigger] post.groups@[g].group@[k1]) != (#[trigger] post.groups@[g].group@[k2]) by {
        assert(post.groups@[g].group@ == pre.groups@[g].group@);
    }
}

/// If groups `0 .. g` are claimed and `g` is free, `g` is what allocation
/// finds first.
proof fn lemma_first_free_at(s: GroupedAllocator, g: int)
    requires
        0 <= g < s.spec_group_count(),
        !s.spec_claimed(g),
        forall|j: int| 0 <= j < g ==> s.spec_claimed(j),
    ensures
        spec_first_free(s) == Some(g),
{
    lemma_first_free_from_at(s, 0, g);
}

proof fn lemma_first_free_from_at(s: GroupedAllocator, i: int, g: int)
    requires
        0 <= i <= g < s.spec_group_count(),
        !s.spec_claimed(g),
        forall|j: int| i <= j < g ==> s.spec_claimed(j),
    ensures
        first_free_from(s, i) == Some(g),
    decreases g - i,
{
    if i < g {
        assert(s.spec_claimed(i));
        lemma_first_free_from_at(s, i + 1, g);
    }
}

/// With every group from `i` on claimed, nothing is free from `i` on.
proof fn lemma_first_free_none(s: GroupedAllocator, i: int)
    requires
        forall|j: int| i <= j < s.spec_group_count() ==> s.spec_claimed(j),
    ensures
        first_free_from(s, i) == None::<int>,
    decreases s.spec_group_count() - i,
{
    if 0 <= i < s.spec_group_count() {
        assert(s.spec_claimed(i));
        lemma_first_free_none(s, i + 1);
    }
}

} // verus!
