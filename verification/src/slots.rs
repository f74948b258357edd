//! Sequences of slot indices, selected by remaining life.

use vstd::prelude::*;

verus! {

/// The slots `i` with `lo <= i < hi` whose life is at least `min`, ascending.
pub open spec fn slots_with_life(lives: Seq<u32>, lo: int, hi: int, min: u32) -> Seq<int>
    decreases hi - lo,
{
    if hi <= lo {
        Seq::empty()
    } else if lives[hi - 1] >= min {
        slots_with_life(lives, lo, hi - 1, min).push(hi - 1)
    } else {
        slots_with_life(lives, lo, hi - 1, min)
    }
}

/// Every selected slot lies in the range and has the life asked for, each
/// such slot is selected, and the selection is strictly ascending.
pub proof fn lemma_slots_with_life(lives: Seq<u32>, lo: int, hi: int, min: u32)
    requires
        0 <= lo,
        hi <= lives.len(),
    ensures
        forall|k: int|
            0 <= k < slots_with_life(lives, lo, hi, min).len() ==> {
                let i = #[trigger] slots_with_life(lives, lo, hi, min)[k];
                lo <= i < hi && lives[i] >= min
            },
        forall|i: int|
            lo <= i < hi && lives[i] >= min ==> #[trigger] slots_with_life(
                lives,
                lo,
                hi,
                min,
            ).contains(i),
        forall|j: int, k: int|
            0 <= j < k < slots_with_life(lives, lo, hi, min).len() ==> slots_with_life(
                lives,
                lo,
                hi,
                min,
            )[j] < slots_with_life(lives, lo, hi, min)[k],
        slots_with_life(lives, lo, hi, min).len() <= if hi > lo { hi - lo } else { 0 },
    decreases hi - lo,
{
    if hi > lo {
        lemma_slots_with_life(lives, lo, hi - 1, min);
        let prev = slots_with_life(lives, lo, hi - 1, min);
        let cur = slots_with_life(lives, lo, hi, min);
        if lives[hi - 1] >= min {
            assert(cur == prev.push(hi - 1));
            assert(cur[prev.len() as int] == hi - 1);
            assert forall|i: int| lo <= i < hi && lives[i] >= min implies cur.contains(i) by {
                if i < hi - 1 {
                    assert(prev.contains(i));
                    let k = choose|k: int| 0 <= k < prev.len() && prev[k] == i;
                    assert(cur[k] == i);
                }
            }
        }
    }
}

/// A range selects what its two halves select, one after the other.
pub proof fn lemma_slots_split(lives: Seq<u32>, lo: int, mid: int, hi: int, min: u32)
    requires
        lo <= mid <= hi,
    ensures
        slots_with_life(lives, lo, hi, min) == slots_with_life(lives, lo, mid, min)
            + slots_with_life(lives, mid, hi, min),
    decreases hi - mid,
{
    let left = slots_with_life(lives, lo, mid, min);
    if hi == mid {
        assert(slots_with_life(lives, mid, hi, min) == Seq::<int>::empty());
        assert(left + Seq::<int>::empty() == left);
    } else {
        lemma_slots_split(lives, lo, mid, hi - 1, min);
        let right = slots_with_life(lives, mid, hi - 1, min);
        if lives[hi - 1] >= min {
            assert((left + right).push(hi - 1) == left + right.push(hi - 1));
        }
    }
}

/// The selection depends on the lives inside the range only.
pub proof fn lemma_slots_congruent(a: Seq<u32>, b: Seq<u32>, lo: int, hi: int, min: u32)
    requires
        forall|i: int| lo <= i < hi ==> a[i] == b[i],
    ensures
        slots_with_life(a, lo, hi, min) == slots_with_life(b, lo, hi, min),
    decreases hi - lo,
{
    if hi > lo {
        lemma_slots_congruent(a, b, lo, hi - 1, min);
    }
}

/// A range selects nothing exactly when no slot in it has the life asked for.
pub proof fn lemma_slots_none(lives: Seq<u32>, lo: int, hi: int, min: u32)
    ensures
        slots_with_life(lives, lo, hi, min).len() == 0 <==> forall|i: int|
            lo <= i < hi ==> lives[i] < min,
    decreases hi - lo,
{
    if hi > lo {
        lemma_slots_none(lives, lo, hi - 1, min);
        if lives[hi - 1] < min && slots_with_life(lives, lo, hi, min).len() == 0 {
            assert forall|i: int| lo <= i < hi implies lives[i] < min by {
                if i < hi - 1 {
                }
            }
        }
    }
}

/// A range in which every slot has the life asked for is selected whole.
pub proof fn lemma_slots_all(lives: Seq<u32>, lo: int, hi: int, min: u32)
    requires
        lo <= hi,
        forall|i: int| lo <= i < hi ==> lives[i] >= min,
    ensures
        slots_with_life(lives, lo, hi, min).len() == hi - lo,
    decreases hi - lo,
{
    if hi > lo {
        lemma_slots_all(lives, lo, hi - 1, min);
    }
}

/// Raising the life asked for never selects more slots.
pub proof fn lemma_slots_fewer(lives: Seq<u32>, lo: int, hi: int, min: u32, more: u32)
    requires
        min <= more,
    ensures
        slots_with_life(lives, lo, hi, more).len() <= slots_with_life(lives, lo, hi, min).len(),
    decreases hi - lo,
{
    if hi > lo {
        lemma_slots_fewer(lives, lo, hi - 1, min, more);
    }
}

/// After one tick a range holds, at any positive life, the slots that held
/// one tick more before it.
pub proof fn lemma_slots_aged(before: Seq<u32>, after: Seq<u32>, lo: int, hi: int, min: u32)
    requires
        1 <= min < u32::MAX,
        forall|i: int| lo <= i < hi ==> after[i] == crate::particle::aged_life(before[i]),
    ensures
        slots_with_life(after, lo, hi, min) == slots_with_life(before, lo, hi, (min + 1) as u32),
    decreases hi - lo,
{
    if hi > lo {
        lemma_slots_aged(before, after, lo, hi - 1, min);
    }
}

/// Overwriting one slot changes the selection of a range around it by that
/// slot alone.
pub proof fn lemma_slots_update(lives: Seq<u32>, slot: int, life: u32, min: u32)
    requires
        0 <= slot < lives.len(),
    ensures
        slots_with_life(lives.update(slot, life), 0, lives.len() as int, min).len()
            == slots_with_life(lives, 0, lives.len() as int, min).len() - (if lives[slot]
            >= min {
            1int
        } else {
            0int
        }) + (if life >= min {
            1int
        } else {
            0int
        }),
{
    let n = lives.len() as int;
    let next = lives.update(slot, life);
    lemma_slots_split(lives, 0, slot, n, min);
    lemma_slots_split(lives, slot, slot + 1, n, min);
    lemma_slots_split(next, 0, slot, n, min);
    lemma_slots_split(next, slot, slot + 1, n, min);
    lemma_slots_congruent(lives, next, 0, slot, min);
    lemma_slots_congruent(lives, next, slot + 1, n, min);
    assert(slots_with_life(lives, slot, slot, min).len() == 0);
    assert(slots_with_life(next, slot, slot, min).len() == 0);
}

} // verus!
