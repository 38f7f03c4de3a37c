//! The slot allocator: an ordered table of occupancy flags, one per slot.
//!
//! Allocation hands out the lowest-numbered free slot and marks it, growing
//! the table only when every slot is taken. The table grows monotonically and
//! never shrinks; a freed slot becomes eligible for reuse at once.

use vstd::prelude::*;

verus! {

/// The index the allocator hands out next: the lowest `false` flag at or
/// after `i`, or the table length when every flag from `i` on is `true`.
pub open spec fn spec_first_free_from(m: Seq<bool>, i: int) -> int
    decreases m.len() - i,
{
    if i < 0 || i >= m.len() {
        m.len() as int
    } else if !m[i] {
        i
    } else {
        spec_first_free_from(m, i + 1)
    }
}

/// The index the allocator hands out on table `m`.
pub open spec fn spec_first_free(m: Seq<bool>) -> int {
    spec_first_free_from(m, 0)
}

/// The table after one allocation: the chosen slot is marked occupied, and a
/// fresh slot is appended when none was free.
pub open spec fn spec_alloc_state(m: Seq<bool>) -> Seq<bool> {
    if spec_first_free(m) == m.len() {
        m.push(true)
    } else {
        m.update(spec_first_free(m), true)
    }
}

/// What `spec_first_free_from` returns, spelled out: every flag below the
/// result (from `i` on) is occupied, and the result is either a free flag or
/// the table length.
pub proof fn lemma_first_free_from(m: Seq<bool>, i: int)
    requires
        0 <= i <= m.len(),
    ensures
        i <= spec_first_free_from(m, i) <= m.len(),
        spec_first_free_from(m, i) < m.len() ==> !m[spec_first_free_from(m, i)],
        forall|j: int| i <= j < spec_first_free_from(m, i) ==> m[j],
    decreases m.len() - i,
{
    if i < m.len() && m[i] {
        lemma_first_free_from(m, i + 1);
    }
}

/// If everything below `i` is occupied and `i` itself is free, the allocator
/// picks exactly `i`.
pub proof fn lemma_first_free_exact(m: Seq<bool>, i: int)
    requires
        0 <= i < m.len(),
        !m[i],
        forall|j: int| 0 <= j < i ==> m[j],
    ensures
        spec_first_free(m) == i,
{
    lemma_first_free_from(m, 0);
    let f = spec_first_free(m);
    if f < i {
        assert(m[f]);
    }
    if f > i {
        assert(!m[i] && i < f);
    }
}

/// Hands out the lowest-numbered free slot, marking it occupied; appends a
/// fresh occupied slot when none is free. The result is never an index that
/// was marked occupied, and is always the lowest-numbered free index.
pub fn allocate(alloc: &mut Vec<bool>) -> (index: usize)
    ensures
        index as int == spec_first_free(old(alloc)@),
        final(alloc)@ == spec_alloc_state(old(alloc)@),
        (index as int) <= old(alloc)@.len(),
        (index as int) < old(alloc)@.len() ==> !old(alloc)@[index as int],
        forall|j: int| 0 <= j < index as int  ==> old(alloc)@[j],
        (index as int) < final(alloc)@.len(),
        final(alloc)@[index as int],
        final(alloc)@.len() >= old(alloc)@.len(),
{
    let n = alloc.len();
    let mut i: usize = 0;
    while i < n
        invariant
            0 <= i <= n,
            n == alloc@.len(),
            alloc@ == old(alloc)@,
            forall|j: int| 0 <= j < i ==> alloc@[j],
        decreases n - i,
    {
        if !alloc[i] {
            proof {
                lemma_first_free_exact(alloc@, i as int);
            }
            let ghost pre = alloc@;
            alloc.set(i, true);
            return i;
        }
        i += 1;
    }
    proof {
        lemma_first_free_from(alloc@, 0);
    }
    alloc.push(true);
    n
}

/// Marks the slot at `index` free. The table never grows or shrinks here.
pub fn free_index(malloc: &mut Vec<bool>, index: usize)
    requires
        index < old(malloc)@.len(),
    ensures
        final(malloc)@ == old(malloc)@.update(index as int, false),
        final(malloc)@.len() == old(malloc)@.len(),
{
    malloc.set(index, false);
}

/// First-fit reuse law: allocate a slot, free that slot, and the next
/// allocation hands out the same index again.
pub proof fn lemma_allocator_reuse(m: Seq<bool>)
    ensures
        ({
            let i = spec_first_free(m);
            spec_first_free(spec_alloc_state(m).update(i, false)) == i
        }),
{
    let i = spec_first_free(m);
    let m1 = spec_alloc_state(m);
    let m2 = m1.update(i, false);
    lemma_first_free_from(m, 0);
    assert(forall|j: int| 0 <= j < i ==> m2[j]);
    assert(!m2[i]);
    lemma_first_free_exact(m2, i);
}

} // verus!
