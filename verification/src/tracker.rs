//! The visibility tracker: a lazily-initialized mapping from stream index to
//! a boolean "should render" flag.
//!
//! The tracker is populated exactly once: the first call of
//! [`PlotTracker::ensure_initialized`] that finds it empty inserts `false`
//! for every index below the given stream count, and every later call is a
//! no-op.  Once non-empty, its key set is frozen even if the stream count
//! later grows; a consumer changes individual flags with [`PlotTracker::set`].

use vstd::prelude::*;

verus! {

/// Per-stream render flags, addressed by stream index.  A missing entry
/// means "not yet known to the tracker", which is distinct from a present
/// `false` flag.
pub struct PlotTracker {
    /// The flag for stream `i` sits at position `i`; `None` marks an index
    /// with no entry.
    pub entries: Vec<Option<bool>>,
}

/// True when no index has an entry.
pub open spec fn all_absent(entries: Seq<Option<bool>>) -> bool {
    forall|i: int| 0 <= i < entries.len() ==> entries[i] is None
}

/// The set of indices that have an entry.
pub open spec fn key_set(entries: Seq<Option<bool>>) -> Set<int> {
    Set::new(|i: int| 0 <= i < entries.len() && entries[i] is Some)
}

/// The number of indices that have an entry.
pub open spec fn key_count(entries: Seq<Option<bool>>) -> nat
    decreases entries.len(),
{
    if entries.len() == 0 {
        0
    } else {
        key_count(entries.drop_last()) + if entries.last() is Some {
            1nat
        } else {
            0nat
        }
    }
}

/// What one [`PlotTracker::ensure_initialized`] call leaves behind: the
/// entries are replaced by `false` flags for indices `0..stream_count` when
/// none existed, and are untouched otherwise.
pub open spec fn initialized(entries: Seq<Option<bool>>, stream_count: nat) -> Seq<Option<bool>> {
    if all_absent(entries) {
        Seq::new(stream_count, |i: int| Some(false))
    } else {
        entries
    }
}

impl PlotTracker {
    /// The flag recorded for stream `index`, if any.
    pub open spec fn entry(self, index: int) -> Option<bool> {
        if 0 <= index < self.entries@.len() {
            self.entries@[index]
        } else {
            None
        }
    }

    /// A tracker with no entries.
    pub fn new() -> (r: PlotTracker)
        ensures
            r.entries@ =~= Seq::<Option<bool>>::empty(),
    {
        PlotTracker { entries: Vec::new() }
    }

    /// True when no index has an entry.
    pub fn is_empty(&self) -> (r: bool)
        ensures
            r == all_absent(self.entries@),
    {
        let mut i: usize = 0;
        while i < self.entries.len()
            invariant
                i <= self.entries@.len(),
                forall|j: int| 0 <= j < i ==> self.entries@[j] is None,
            decreases self.entries@.len() - i,
        {
            if self.entries[i].is_some() {
                return false;
            }
            i = i + 1;
        }
        true
    }

    /// Populates the tracker with a `false` flag for every index below
    /// `stream_count`, but only when it holds no entry at all; a non-empty
    /// tracker is left exactly as it was.
    pub fn ensure_initialized(&mut self, stream_count: usize)
        ensures
            final(self).entries@ == initialized(old(self).entries@, stream_count as nat),
    {
        if self.is_empty() {
            let mut fresh: Vec<Option<bool>> = Vec::new();
            let mut i: usize = 0;
            while i < stream_count
                invariant
                    i <= stream_count,
                    fresh@ =~= Seq::new(i as nat, |j: int| Some(false)),
                decreases stream_count - i,
            {
                fresh.push(Some(false));
                i = i + 1;
            }
            self.entries = fresh;
            proof {
                assert(final(self).entries@ =~= initialized(old(self).entries@, stream_count as nat));
            }
        }
    }

    /// The flag recorded for stream `index`, or `None` when the tracker has
    /// no entry for it.
    pub fn get(&self, index: usize) -> (r: Option<bool>)
        ensures
            r == self.entry(index as int),
    {
        if index < self.entries.len() {
            self.entries[index]
        } else {
            None
        }
    }

    /// Records the flag `value` for stream `index`, creating the entry if
    /// it did not exist; every other index keeps its state.
    pub fn set(&mut self, index: usize, value: bool)
        requires
            index < usize::MAX,
        ensures
            final(self).entry(index as int) == Some(value),
            forall|j: int| j != index ==> final(self).entry(j) == old(self).entry(j),
    {
        while self.entries.len() <= index
            invariant
                index < usize::MAX,
                forall|j: int| j != index ==> self.entry(j) == old(self).entry(j),
                self.entry(index as int) == old(self).entry(index as int),
            decreases index + 1 - self.entries@.len(),
        {
            self.entries.push(None);
        }
        self.entries[index] = Some(value);
    }

    /// The number of indices that have an entry.
    pub fn len(&self) -> (n: usize)
        ensures
            n == key_count(self.entries@),
    {
        let mut n: usize = 0;
        let mut i: usize = 0;
        while i < self.entries.len()
            invariant
                i <= self.entries@.len(),
                n == key_count(self.entries@.subrange(0, i as int)),
                n <= i,
            decreases self.entries@.len() - i,
        {
            let ghost prefix = self.entries@.subrange(0, i as int);
            if self.entries[i].is_some() {
                n = n + 1;
            }
            i = i + 1;
            proof {
                let longer = self.entries@.subrange(0, i as int);
                assert(longer.drop_last() =~= prefix);
            }
        }
        proof {
            assert(self.entries@.subrange(0, self.entries@.len() as int) =~= self.entries@);
        }
        n
    }
}

/// The tracker's key set is decided by the first populating call alone.
///
/// Law: starting from an empty tracker, a populating `ensure_initialized`
/// call with a positive stream count freezes the entries; a second call,
/// whatever stream count it passes, changes neither the entries nor the
/// key set.
pub proof fn lemma_first_init_wins(entries: Seq<Option<bool>>, n1: nat, n2: nat)
    requires
        all_absent(entries),
        n1 > 0,
    ensures
        initialized(initialized(entries, n1), n2) == initialized(entries, n1),
        key_set(initialized(initialized(entries, n1), n2)) == key_set(initialized(entries, n1)),
{
    let first = initialized(entries, n1);
    assert(first[0] is Some);
    assert(!all_absent(first));
}

} // verus!
