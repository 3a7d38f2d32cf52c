//! The optimizer's map from head offset to accumulated cell delta.
//!
//! The sweep keeps, for each offset relative to the last committed head
//! position, the signed delta accumulated by `+` and `-` since the last flush.
//! The map is held as an association list in first-insertion order, which
//! fixes the order in which flushed instructions are emitted.

use vstd::prelude::*;

verus! {

/// The entries viewed as a sequence: first-insertion order, one entry per key.
pub type Entries = Seq<(i32, i16)>;

/// The delta recorded for `k`, if any (first entry with that key).
pub open spec fn spec_get(p: Entries, k: i32) -> Option<i16>
    decreases p.len(),
{
    if p.len() == 0 {
        None
    } else if p[0].0 == k {
        Some(p[0].1)
    } else {
        spec_get(p.drop_first(), k)
    }
}

/// Add `n` (wrapping) to the delta recorded for `k`, inserting the entry at
/// the back if `k` is new.
pub open spec fn spec_bump(p: Entries, k: i32, n: i16) -> Entries
    decreases p.len(),
{
    if p.len() == 0 {
        seq![(k, n)]
    } else if p[0].0 == k {
        seq![(k, p[0].1.wrapping_add(n))] + p.drop_first()
    } else {
        seq![p[0]] + spec_bump(p.drop_first(), k, n)
    }
}

/// Drop the entry for `k`, if any; the other entries keep their order.
pub open spec fn spec_remove(p: Entries, k: i32) -> Entries
    decreases p.len(),
{
    if p.len() == 0 {
        p
    } else if p[0].0 == k {
        p.drop_first()
    } else {
        seq![p[0]] + spec_remove(p.drop_first(), k)
    }
}

proof fn lemma_get_found(p: Entries, k: i32, i: int)
    requires
        0 <= i < p.len(),
        p[i].0 == k,
        forall|j: int| 0 <= j < i ==> (#[trigger] p[j]).0 != k,
    ensures
        spec_get(p, k) == Some(p[i].1),
    decreases i,
{
    if i > 0 {
        lemma_get_found(p.drop_first(), k, i - 1);
    }
}

proof fn lemma_get_absent(p: Entries, k: i32)
    requires
        forall|j: int| 0 <= j < p.len() ==> (#[trigger] p[j]).0 != k,
    ensures
        spec_get(p, k) is None,
    decreases p.len(),
{
    if p.len() > 0 {
        lemma_get_absent(p.drop_first(), k);
    }
}

proof fn lemma_bump_found(p: Entries, k: i32, n: i16, i: int)
    requires
        0 <= i < p.len(),
        p[i].0 == k,
        forall|j: int| 0 <= j < i ==> (#[trigger] p[j]).0 != k,
    ensures
        spec_bump(p, k, n) == p.update(i, (k, p[i].1.wrapping_add(n))),
    decreases i,
{
    if i == 0 {
        assert(spec_bump(p, k, n) =~= p.update(0, (k, p[0].1.wrapping_add(n))));
    } else {
        lemma_bump_found(p.drop_first(), k, n, i - 1);
        assert(seq![p[0]] + p.drop_first().update(i - 1, (k, p[i].1.wrapping_add(n))) =~= p.update(
            i,
            (k, p[i].1.wrapping_add(n)),
        ));
    }
}

proof fn lemma_bump_absent(p: Entries, k: i32, n: i16)
    requires
        forall|j: int| 0 <= j < p.len() ==> (#[trigger] p[j]).0 != k,
    ensures
        spec_bump(p, k, n) == p.push((k, n)),
    decreases p.len(),
{
    if p.len() == 0 {
        assert(spec_bump(p, k, n) =~= p.push((k, n)));
    } else {
        lemma_bump_absent(p.drop_first(), k, n);
        assert(seq![p[0]] + p.drop_first().push((k, n)) =~= p.push((k, n)));
    }
}

proof fn lemma_remove_found(p: Entries, k: i32, i: int)
    requires
        0 <= i < p.len(),
        p[i].0 == k,
        forall|j: int| 0 <= j < i ==> (#[trigger] p[j]).0 != k,
    ensures
        spec_remove(p, k) == p.remove(i),
    decreases i,
{
    if i == 0 {
        assert(spec_remove(p, k) =~= p.remove(0));
    } else {
        lemma_remove_found(p.drop_first(), k, i - 1);
        assert(seq![p[0]] + p.drop_first().remove(i - 1) =~= p.remove(i));
    }
}

proof fn lemma_remove_absent(p: Entries, k: i32)
    requires
        forall|j: int| 0 <= j < p.len() ==> (#[trigger] p[j]).0 != k,
    ensures
        spec_remove(p, k) == p,
    decreases p.len(),
{
    if p.len() > 0 {
        lemma_remove_absent(p.drop_first(), k);
        assert(seq![p[0]] + p.drop_first() =~= p);
    }
}

/// A bump grows the map by at most the one inserted entry.
pub proof fn lemma_bump_len(p: Entries, k: i32, n: i16)
    ensures
        spec_bump(p, k, n).len() <= p.len() + 1,
    decreases p.len(),
{
    if p.len() > 0 && p[0].0 != k {
        lemma_bump_len(p.drop_first(), k, n);
    }
}

/// Removal never grows the map.
pub proof fn lemma_remove_len(p: Entries, k: i32)
    ensures
        spec_remove(p, k).len() <= p.len(),
    decreases p.len(),
{
    if p.len() > 0 && p[0].0 != k {
        lemma_remove_len(p.drop_first(), k);
    }
}

/// Offset-to-delta map, backed by a vector in first-insertion order.
pub struct PendingMap {
    entries: Vec<(i32, i16)>,
}

impl View for PendingMap {
    type V = Entries;

    closed spec fn view(&self) -> Entries {
        self.entries@
    }
}

impl PendingMap {
    /// The empty map.
    pub fn new() -> (r: PendingMap)
        ensures
            r@ == Seq::<(i32, i16)>::empty(),
    {
        PendingMap { entries: Vec::new() }
    }

    /// Index of the entry for `k`, if any.
    fn find(&self, k: i32) -> (r: Option<usize>)
        ensures
            match r {
                Some(i) => i < self@.len() && self@[i as int].0 == k && forall|j: int|
                    0 <= j < i ==> (#[trigger] self@[j]).0 != k,
                None => forall|j: int| 0 <= j < self@.len() ==> (#[trigger] self@[j]).0 != k,
            },
    {
        let mut i: usize = 0;
        while i < self.entries.len()
            invariant
                i <= self@.len(),
                forall|j: int| 0 <= j < i ==> (#[trigger] self@[j]).0 != k,
            decreases self@.len() - i,
        {
            if self.entries[i].0 == k {
                return Some(i);
            }
            i += 1;
        }
        None
    }

    /// The delta recorded for `k`, if any.
    pub fn get(&self, k: i32) -> (r: Option<i16>)
        ensures
            r == spec_get(self@, k),
    {
        match self.find(k) {
            Some(i) => {
                proof {
                    lemma_get_found(self@, k, i as int);
                }
                Some(self.entries[i].1)
            },
            None => {
                proof {
                    lemma_get_absent(self@, k);
                }
                None
            },
        }
    }

    /// Add `n` (wrapping) to the delta for `k`, inserting `k` if it is new.
    pub fn bump(&mut self, k: i32, n: i16)
        ensures
            final(self)@ == spec_bump(old(self)@, k, n),
    {
        match self.find(k) {
            Some(i) => {
                proof {
                    lemma_bump_found(old(self)@, k, n, i as int);
                }
                let d = self.entries[i].1;
                self.entries[i] = (k, d.wrapping_add(n));
            },
            None => {
                proof {
                    lemma_bump_absent(old(self)@, k, n);
                }
                self.entries.push((k, n));
            },
        }
    }

    /// Drop the entry for `k`, if any.
    pub fn remove(&mut self, k: i32)
        ensures
            final(self)@ == spec_remove(old(self)@, k),
    {
        match self.find(k) {
            Some(i) => {
                proof {
                    lemma_remove_found(old(self)@, k, i as int);
                }
                self.entries.remove(i);
            },
            None => {
                proof {
                    lemma_remove_absent(old(self)@, k);
                }
            },
        }
    }

    /// Drop every entry.
    pub fn clear(&mut self)
        ensures
            final(self)@ == Seq::<(i32, i16)>::empty(),
    {
        self.entries.clear();
    }

    /// Number of entries.
    pub fn len(&self) -> (r: usize)
        ensures
            r == self@.len(),
    {
        self.entries.len()
    }

    /// The entry at position `i` in insertion order.
    pub fn entry(&self, i: usize) -> (r: (i32, i16))
        requires
            i < self@.len(),
        ensures
            r == self@[i as int],
    {
        self.entries[i]
    }
}

} // verus!
