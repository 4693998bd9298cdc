//! Open-addressing table of fingerprints, as the repetition detector fills
//! it: fixed in size, probed linearly, never emptied.

use vstd::prelude::*;

verus! {

/// The slot reached from `home` after `d` steps of linear probing in a table
/// of `size` slots, for `0 <= d < size`.
spec fn probe_slot(home: int, d: int, size: int) -> int {
    if home + d < size {
        home + d
    } else {
        home + d - size
    }
}

/// The number of probing steps that lead from `home` to slot `q`.
spec fn probe_distance(home: int, q: int, size: int) -> int {
    if q >= home {
        q - home
    } else {
        q - home + size
    }
}

/// The slot at which the search for the stored value `f` starts.
spec fn home_slot(f: u32, size: int) -> int {
    (f as int) % size
}

/// The number of non-empty slots.
spec fn occupied(slots: Seq<u32>) -> nat
    decreases slots.len(),
{
    if slots.len() == 0 {
        0
    } else {
        occupied(slots.drop_last()) + (if slots.last() != 0 {
            1nat
        } else {
            0nat
        })
    }
}

/// The first `steps` slots probed from `home` are all non-empty.
spec fn run_is_full(slots: Seq<u32>, home: int, steps: int) -> bool {
    forall|d: int|
        0 <= d < steps ==> slots[#[trigger] probe_slot(home, d, slots.len() as int)] != 0
}

/// Every stored value is reachable from its home slot without crossing an
/// empty slot.
spec fn probes_intact(slots: Seq<u32>) -> bool {
    forall|q: int|
        0 <= q < slots.len() && (#[trigger] slots[q]) != 0 ==> run_is_full(
            slots,
            home_slot(slots[q], slots.len() as int),
            probe_distance(home_slot(slots[q], slots.len() as int), q, slots.len() as int),
        )
}

proof fn lemma_occupied_after_store(slots: Seq<u32>, e: int, f: u32)
    requires
        0 <= e < slots.len(),
        slots[e] == 0,
        f != 0,
    ensures
        occupied(slots.update(e, f)) == occupied(slots) + 1,
    decreases slots.len(),
{
    let after = slots.update(e, f);
    if e == slots.len() - 1 {
        assert(after.drop_last() == slots.drop_last());
    } else {
        assert(after.drop_last() == slots.drop_last().update(e, f));
        lemma_occupied_after_store(slots.drop_last(), e, f);
    }
}

proof fn lemma_occupied_when_full(slots: Seq<u32>)
    requires
        forall|q: int| 0 <= q < slots.len() ==> slots[q] != 0,
    ensures
        occupied(slots) == slots.len(),
    decreases slots.len(),
{
    if slots.len() > 0 {
        lemma_occupied_when_full(slots.drop_last());
    }
}

proof fn lemma_occupied_when_empty(slots: Seq<u32>)
    requires
        forall|q: int| 0 <= q < slots.len() ==> slots[q] == 0,
    ensures
        occupied(slots) == 0,
    decreases slots.len(),
{
    if slots.len() > 0 {
        lemma_occupied_when_empty(slots.drop_last());
    }
}

/// Open-addressing table of window fingerprints. A slot holds 0 while it is
/// empty; stored values are never 0, and one that finds its home slot taken
/// by another value goes to the next free slot after it.
pub(crate) struct FingerprintTable {
    slots: Vec<u32>,
}

impl FingerprintTable {
    /// Some slot holds `f`.
    pub(crate) closed spec fn holds(&self, f: u32) -> bool {
        exists|q: int| 0 <= q < self.slots@.len() && #[trigger] self.slots@[q] == f
    }

    pub(crate) closed spec fn wf(&self) -> bool {
        self.slots@.len() > 0 && probes_intact(self.slots@)
    }

    pub(crate) closed spec fn capacity(&self) -> nat {
        self.slots@.len()
    }

    pub(crate) closed spec fn used(&self) -> nat {
        occupied(self.slots@)
    }

    /// Creates a table of `size` empty slots.
    pub(crate) fn new(size: usize) -> (t: FingerprintTable)
        requires
            size > 0,
        ensures
            t.wf(),
            t.capacity() == size,
            t.used() == 0,
            forall|f: u32| f != 0 ==> !t.holds(f),
    {
        let slots: Vec<u32> = vec![0u32; size];
        let t = FingerprintTable { slots };
        proof {
            assert forall|q: int| 0 <= q < t.slots@.len() implies t.slots@[q] == 0 by {}
            lemma_occupied_when_empty(t.slots@);
        }
        t
    }

    /// Looks `f` up and stores it if it is absent. Returns whether it was
    /// already present.
    pub(crate) fn record(&mut self, f: u32) -> (seen: bool)
        requires
            old(self).wf(),
            f != 0,
            old(self).used() < old(self).capacity(),
        ensures
            final(self).wf(),
            final(self).capacity() == old(self).capacity(),
            seen == old(self).holds(f),
            final(self).used() == old(self).used() + (if seen { 0nat } else { 1nat }),
            forall|g: u32| g != 0 ==> (final(self).holds(g) <==> old(self).holds(g) || g == f),
    {
        let size: usize = self.slots.len();
        let home: usize = (f as usize) % size;
        let mut p: usize = home;
        let ghost mut steps: int = 0;
        while self.slots[p] != 0 && self.slots[p] != f
            invariant
                self.slots@ == old(self).slots@,
                size == self.slots@.len(),
                size > 0,
                0 <= home < size,
                0 <= steps < size,
                p == probe_slot(home as int, steps, size as int),
                occupied(self.slots@) < size,
                forall|d: int|
                    0 <= d < steps ==> {
                        let v = self.slots@[#[trigger] probe_slot(home as int, d, size as int)];
                        v != 0 && v != f
                    },
            decreases size - steps,
        {
            proof {
                if steps + 1 == size {
                    assert forall|q: int| 0 <= q < size implies self.slots@[q] != 0 by {
                        let d = probe_distance(home as int, q, size as int);
                        assert(probe_slot(home as int, d, size as int) == q);
                    }
                    lemma_occupied_when_full(self.slots@);
                }
                steps = steps + 1;
            }
            p = if p + 1 == size {
                0
            } else {
                p + 1
            };
        }
        if self.slots[p] == f {
            proof {
                assert forall|g: u32| g != 0 && (self.holds(g) || g == f) implies self.holds(g) by {}
            }
            true
        } else {
            proof {
                // `f` is absent: a slot holding it would lie either on the
                // probed run, where no slot holds it, or beyond the empty slot
                // `p`, which its own run would then have to cross.
                assert forall|q: int| 0 <= q < size implies self.slots@[q] != f by {
                    if self.slots@[q] == f {
                        let d = probe_distance(home as int, q, size as int);
                        assert(probe_slot(home as int, d, size as int) == q);
                        if d >= steps {
                            assert(run_is_full(self.slots@, home as int, d));
                            assert(self.slots@[probe_slot(home as int, steps, size as int)] != 0);
                        }
                    }
                }
                lemma_occupied_after_store(self.slots@, p as int, f);
            }
            let ghost before = self.slots@;
            self.slots[p] = f;
            proof {
                let after = self.slots@;
                assert(after == before.update(p as int, f));
                assert forall|q: int| 0 <= q < after.len() && (#[trigger] after[q]) != 0 implies run_is_full(
                    after,
                    home_slot(after[q], after.len() as int),
                    probe_distance(home_slot(after[q], after.len() as int), q, after.len() as int),
                ) by {
                    let h = home_slot(after[q], size as int);
                    let dq = probe_distance(h, q, size as int);
                    assert forall|d: int| 0 <= d < dq implies after[#[trigger] probe_slot(
                        h,
                        d,
                        size as int,
                    )] != 0 by {
                        let s = probe_slot(h, d, size as int);
                        if s != p {
                            if q == p {
                                assert(h == home);
                                assert(dq == steps);
                            } else {
                                assert(before[q] != 0);
                                assert(run_is_full(before, h, dq));
                            }
                        }
                    }
                }
                assert forall|g: u32| g != 0 implies (self.holds(g) <==> old(self).holds(g) || g
                    == f) by {
                    if old(self).holds(g) {
                        let q = choose|q: int| 0 <= q < before.len() && #[trigger] before[q] == g;
                        assert(after[q] == g);
                    }
                    if g == f {
                        assert(after[p as int] == g);
                    }
                    if self.holds(g) && g != f {
                        let q = choose|q: int| 0 <= q < after.len() && #[trigger] after[q] == g;
                        assert(before[q] == g);
                    }
                }
            }
            false
        }
    }
}

} // verus!
