use crate::allocators::{claim_step, first_free_from, spec_first_free, unclaim_step, vacate_step, occupy_step, GroupedAllocator};
use vstd::prelude::*;

verus! {

/// How many groups are currently claimed, counting positions `0 .. i`.
pub open spec fn spec_claimed_count(s: GroupedAllocator, i: int) -> int
    decreases i,
{
    if i <= 0 {
        0
    } else {
        spec_claimed_count(s, i - 1) + if s.spec_claimed(i - 1) {
            1int
        } else {
            0int
        }
    }
}

/// Outstanding leases never exceed the number of groups: however many
/// claims are held, they fit in the registry.
pub proof fn lemma_claims_bounded(s: GroupedAllocator)
    ensures
        0 <= spec_claimed_count(s, s.spec_group_count()) <= s.spec_group_count(),
{
    lemma_claimed_count_bounds(s, s.spec_group_count());
}

proof fn lemma_claimed_count_bounds(s: GroupedAllocator, i: int)
    ensures
        0 <= spec_claimed_count(s, i) <= if i < 0 {
            0int
        } else {
            i
        },
    decreases i,
{
    if i > 0 {
        lemma_claimed_count_bounds(s, i - 1);
    }
}

/// Each successful allocation claims exactly one more group.
pub proof fn lemma_allocation_claims_one(pre: GroupedAllocator, post: GroupedAllocator, g: int)
    requires
        claim_step(pre, post, g),
    ensures
        spec_claimed_count(post, post.spec_group_count()) == spec_claimed_count(
            pre,
            pre.spec_group_count(),
        ) + 1,
{
    lemma_count_after_flip(pre, post, g, pre.spec_group_count());
}

proof fn lemma_count_after_flip(pre: GroupedAllocator, post: GroupedAllocator, g: int, i: int)
    requires
        claim_step(pre, post, g),
        i <= pre.spec_group_count(),
    ensures
        spec_claimed_count(post, i) == spec_claimed_count(pre, i) + if g < i {
            1int
        } else {
            0int
        },
    decreases i,
{
    if i > 0 {
        lemma_count_after_flip(pre, post, g, i - 1);
    }
}

/// With every group claimed — as many outstanding leases as groups — one
/// more allocation attempt finds nothing.
pub proof fn lemma_exhausted_allocator(s: GroupedAllocator)
    requires
        forall|g: int| 0 <= g < s.spec_group_count() ==> s.spec_claimed(g),
    ensures
        spec_first_free(s) is None,
{
    lemma_first_free_from_none(s, 0);
}

proof fn lemma_first_free_from_none(s: GroupedAllocator, i: int)
    requires
        forall|j: int| i <= j < s.spec_group_count() ==> s.spec_claimed(j),
    ensures
        first_free_from(s, i) is None,
    decreases s.spec_group_count() - i,
{
    if 0 <= i < s.spec_group_count() {
        lemma_first_free_from_none(s, i + 1);
    }
}

/// Allocation looks only at the claim flags: two registries whose groups
/// are claimed alike are offered the same first free group.
pub proof fn lemma_first_free_congruent(a: GroupedAllocator, b: GroupedAllocator)
    requires
        a.spec_group_count() == b.spec_group_count(),
        forall|g: int| 0 <= g < a.spec_group_count() ==> a.spec_claimed(g) == b.spec_claimed(g),
    ensures
        spec_first_free(a) == spec_first_free(b),
{
    lemma_first_free_from_congruent(a, b, 0);
}

proof fn lemma_first_free_from_congruent(a: GroupedAllocator, b: GroupedAllocator, i: int)
    requires
        a.spec_group_count() == b.spec_group_count(),
        forall|g: int| 0 <= g < a.spec_group_count() ==> a.spec_claimed(g) == b.spec_claimed(g),
    ensures
        first_free_from(a, i) == first_free_from(b, i),
    decreases a.spec_group_count() - i,
{
    if 0 <= i < a.spec_group_count() {
        lemma_first_free_from_congruent(a, b, i + 1);
    }
}

/// Claiming a group and releasing that same claim puts the registry back
/// where it was: the next allocation is offered the same group again, with
/// the same cores — releasing a lease makes exactly that group reusable.
pub proof fn lemma_claim_release_reclaim(
    s0: GroupedAllocator,
    s1: GroupedAllocator,
    s2: GroupedAllocator,
    g: int,
)
    requires
        claim_step(s0, s1, g),
        unclaim_step(s1, s2, g),
    ensures
        spec_first_free(s2) == spec_first_free(s0),
        spec_first_free(s0) == Some(g) ==> spec_first_free(s2) == Some(g),
        s2.spec_group_cores(g) == s0.spec_group_cores(g),
        forall|id: usize| s2.spec_occupied(id) == s0.spec_occupied(id),
{
    assert forall|j: int|
        0 <= j < s0.spec_group_count() implies s2.spec_claimed(j) == s0.spec_claimed(j) by {
        if j != g {
            assert(s1.spec_claimed(j) == s0.spec_claimed(j));
        }
    }
    lemma_first_free_congruent(s2, s0);
}

/// Binding a free core and then letting its guard restore leaves every
/// core's occupancy as it was before the bind.
pub proof fn lemma_bind_restore_roundtrip(
    s0: GroupedAllocator,
    s1: GroupedAllocator,
    s2: GroupedAllocator,
    id: usize,
)
    requires
        !s0.spec_occupied(id),
        occupy_step(s0, s1, id),
        vacate_step(s1, s2, id),
    ensures
        forall|x: usize| s2.spec_occupied(x) == s0.spec_occupied(x),
        s2.spec_groups() == s0.spec_groups(),
        s2.spec_core_ids() == s0.spec_core_ids(),
{
}

} // verus!
