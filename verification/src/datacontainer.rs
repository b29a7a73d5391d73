//! The stream buffer store: a mapping from positional stream index to a
//! fixed-capacity FIFO history of samples, together with the per-stream
//! visibility tracker.
//!
//! A stream is created implicitly on the first append for its index and is
//! never deleted.  Each stream keeps at most `look_back` samples; appending
//! beyond that evicts exactly the oldest sample.  `stream_count` is
//! recomputed from the store after every append, so it always equals the
//! number of distinct indices ever appended to.

use vstd::prelude::*;
use crate::tracker::PlotTracker;
use crate::tracker::initialized;

verus! {

/// The error a read reports when no stream exists for the requested index.
#[derive(Debug, PartialEq, Eq, Structural)]
pub enum StoreError {
    /// No stream has ever received data for the given index.
    StreamNotFound,
}

/// One bounded append: `value` goes to the back of `s`, and when the result
/// would exceed `cap` samples the oldest one is evicted from the front.
pub open spec fn bounded_push(s: Seq<u64>, value: u64, cap: nat) -> Seq<u64> {
    let grown = s.push(value);
    if grown.len() > cap {
        grown.drop_first()
    } else {
        grown
    }
}

/// The stream at `index`: `None` when no stream exists there.
pub open spec fn stream_at(streams: Seq<Option<Seq<u64>>>, index: int) -> Option<Seq<u64>> {
    if 0 <= index < streams.len() {
        streams[index]
    } else {
        None
    }
}

/// True when a stream exists at `index`.
pub open spec fn has_stream(streams: Seq<Option<Seq<u64>>>, index: int) -> bool {
    stream_at(streams, index) is Some
}

/// The history at `index`, or the empty history when no stream exists there.
pub open spec fn stream_or_empty(streams: Seq<Option<Seq<u64>>>, index: int) -> Seq<u64> {
    match stream_at(streams, index) {
        Some(s) => s,
        None => Seq::empty(),
    }
}

/// The number of distinct indices that hold a stream.
pub open spec fn count_streams(streams: Seq<Option<Seq<u64>>>) -> nat
    decreases streams.len(),
{
    if streams.len() == 0 {
        0
    } else {
        count_streams(streams.drop_last()) + if streams.last() is Some {
            1nat
        } else {
            0nat
        }
    }
}

/// What one append leaves behind: the store grows with absent entries up to
/// `index` if needed, and the stream at `index` takes `value` at its back,
/// evicting its oldest sample when it would exceed `cap`.
pub open spec fn appended(
    streams: Seq<Option<Seq<u64>>>,
    index: int,
    value: u64,
    cap: nat,
) -> Seq<Option<Seq<u64>>>
    recommends
        0 <= index,
{
    let grown = if index < streams.len() {
        streams
    } else {
        streams + Seq::new((index + 1 - streams.len()) as nat, |j: int| None)
    };
    grown.update(index, Some(bounded_push(stream_or_empty(streams, index), value, cap)))
}

/// A container for multiple bounded data streams and their render flags.
pub struct DataContainer {
    /// The history for stream `i` sits at position `i`; `None` marks an
    /// index that has never received data.
    pub measurements: Vec<Option<Vec<u64>>>,
    /// The look-back window: the maximum number of samples retained per
    /// stream.
    pub look_back: usize,
    /// The number of distinct streams currently present, recomputed from
    /// the store after every append.
    pub stream_count: usize,
    /// Tracks whether each stream should be rendered.
    pub plot_tracker: PlotTracker,
}

impl DataContainer {
    /// The streams as a mathematical sequence of optional histories.
    pub open spec fn streams(self) -> Seq<Option<Seq<u64>>> {
        self.measurements.deep_view()
    }

    /// Internal consistency: `stream_count` counts the present streams, and
    /// no stream holds more than `look_back` samples.
    pub open spec fn wf(self) -> bool {
        &&& self.stream_count == count_streams(self.streams())
        &&& forall|i: int|
            0 <= i < self.streams().len() ==> match #[trigger] self.streams()[i] {
                Some(s) => s.len() <= self.look_back,
                None => true,
            }
    }

    /// An empty container retaining at most `capacity` samples per stream.
    pub fn new(capacity: usize) -> (r: DataContainer)
        ensures
            r.wf(),
            r.streams() =~= Seq::<Option<Seq<u64>>>::empty(),
            r.look_back == capacity,
            r.stream_count == 0,
            r.plot_tracker.entries@ =~= Seq::<Option<bool>>::empty(),
    {
        DataContainer {
            measurements: Vec::new(),
            look_back: capacity,
            stream_count: 0,
            plot_tracker: PlotTracker::new(),
        }
    }

    /// Appends `value` to the stream at `index`, creating the stream on
    /// first use and evicting its oldest sample once `look_back` is
    /// exceeded; afterwards `stream_count` is recomputed from the store.
    /// No other stream is affected.
    pub fn append_values(&mut self, index: usize, value: u64)
        requires
            old(self).wf(),
        ensures
            final(self).wf(),
            final(self).streams() == appended(
                old(self).streams(),
                index as int,
                value,
                old(self).look_back as nat,
            ),
            stream_at(final(self).streams(), index as int) == Some(
                bounded_push(
                    stream_or_empty(old(self).streams(), index as int),
                    value,
                    old(self).look_back as nat,
                ),
            ),
            forall|j: int|
                j != index ==> stream_at(final(self).streams(), j) == stream_at(
                    old(self).streams(),
                    j,
                ),
            final(self).stream_count == old(self).stream_count + if has_stream(
                old(self).streams(),
                index as int,
            ) {
                0int
            } else {
                1int
            },
            final(self).look_back == old(self).look_back,
            final(self).plot_tracker == old(self).plot_tracker,
    {
        let ghost m = old(self).streams();
        let ghost cap = old(self).look_back as nat;
        while self.measurements.len() <= index
            invariant
                self.look_back == old(self).look_back,
                self.stream_count == old(self).stream_count,
                self.plot_tracker == old(self).plot_tracker,
                self.streams().len() >= m.len(),
                self.streams().len() == m.len() || self.streams().len() <= index + 1,
                self.streams() =~= m + Seq::new((self.streams().len() - m.len()) as nat, |j: int| None),
            decreases index + 1 - self.measurements@.len(),
        {
            let ghost before = self.streams();
            self.measurements.push(None);
            proof {
                assert(self.streams() =~~= before.push(None));
                assert(self.streams() =~~= m + Seq::new(
                    (self.streams().len() - m.len()) as nat,
                    |j: int| None,
                ));
            }
        }
        let ghost grown = self.streams();
        proof {
            assert(grown == if index < m.len() {
                m
            } else {
                m + Seq::new((index + 1 - m.len()) as nat, |j: int| None)
            });
            assert(stream_at(grown, index as int) == stream_at(m, index as int));
        }
        let taken = self.measurements[index].take();
        let mut stream: Vec<u64> = match taken {
            Some(s) => s,
            None => Vec::new(),
        };
        proof {
            assert(self.streams() =~~= grown.update(index as int, None));
            assert(stream@ == stream_or_empty(m, index as int));
        }
        stream.push(value);
        if stream.len() > self.look_back {
            let _evicted = stream.remove(0);
            proof {
                assert(stream@ =~= stream_or_empty(m, index as int).push(value).drop_first());
            }
        }
        proof {
            assert(stream@ == bounded_push(stream_or_empty(m, index as int), value, cap));
        }
        self.measurements[index] = Some(stream);
        proof {
            assert(self.streams() =~~= appended(m, index as int, value, cap));
            lemma_count_appended(m, index as int, value, cap);
            assert(forall|i: int|
                0 <= i < self.streams().len() ==> match #[trigger] self.streams()[i] {
                    Some(s) => s.len() <= self.look_back,
                    None => true,
                });
        }
        let n = count_present(&self.measurements);
        self.stream_count = n;
    }
}

impl Default for DataContainer {
    /// An empty container with the default look-back window of 500 samples.
    fn default() -> (r: DataContainer)
        ensures
            r.wf(),
            r.streams() =~= Seq::<Option<Seq<u64>>>::empty(),
            r.look_back == 500,
            r.stream_count == 0,
            r.plot_tracker.entries@ =~= Seq::<Option<bool>>::empty(),
    {
        DataContainer::new(500)
    }
}

impl DataContainer {
    /// A point-in-time copy of the full retained history of the stream at
    /// `index`, oldest sample first; fails when no stream exists there.
    pub fn read_full(&self, index: usize) -> (r: Result<Vec<u64>, StoreError>)
        ensures
            match r {
                Ok(v) => has_stream(self.streams(), index as int) && v@ == stream_or_empty(
                    self.streams(),
                    index as int,
                ),
                Err(e) => !has_stream(self.streams(), index as int) && e
                    == StoreError::StreamNotFound,
            },
    {
        if index < self.measurements.len() {
            match &self.measurements[index] {
                Some(s) => {
                    let out = copy_samples(s);
                    proof {
                        assert(stream_at(self.streams(), index as int) == Some(s@));
                    }
                    Ok(out)
                },
                None => Err(StoreError::StreamNotFound),
            }
        } else {
            Err(StoreError::StreamNotFound)
        }
    }

    /// The current snapshot of the stream at `index` paired with synthetic
    /// x-coordinates: position `k` in the snapshot yields the point
    /// `(k, sample)`, so the x-coordinates run from 0 upward in steps of
    /// one, restarting at 0 for the oldest retained sample.
    pub fn get_plotpoints(&self, index: usize) -> (r: Result<Vec<(usize, u64)>, StoreError>)
        ensures
            match r {
                Ok(points) => {
                    &&& has_stream(self.streams(), index as int)
                    &&& points@.len() == stream_or_empty(self.streams(), index as int).len()
                    &&& forall|k: int|
                        0 <= k < points@.len() ==> #[trigger] points@[k] == (
                            k as usize,
                            stream_or_empty(self.streams(), index as int)[k],
                        )
                },
                Err(e) => !has_stream(self.streams(), index as int) && e
                    == StoreError::StreamNotFound,
            },
    {
        if index < self.measurements.len() {
            match &self.measurements[index] {
                Some(s) => {
                    proof {
                        assert(stream_at(self.streams(), index as int) == Some(s@));
                    }
                    let mut points: Vec<(usize, u64)> = Vec::new();
                    let mut k: usize = 0;
                    while k < s.len()
                        invariant
                            k <= s@.len(),
                            points@.len() == k,
                            forall|p: int|
                                0 <= p < k ==> #[trigger] points@[p] == (p as usize, s@[p]),
                        decreases s@.len() - k,
                    {
                        points.push((k, s[k]));
                        k = k + 1;
                    }
                    Ok(points)
                },
                None => Err(StoreError::StreamNotFound),
            }
        } else {
            Err(StoreError::StreamNotFound)
        }
    }

    /// Populates the visibility tracker with a `false` flag for each of the
    /// current streams, but only when the tracker is still empty; once it
    /// holds entries, this call changes nothing.
    pub fn update_tracker(&mut self)
        ensures
            final(self).plot_tracker.entries@ == initialized(
                old(self).plot_tracker.entries@,
                old(self).stream_count as nat,
            ),
            final(self).measurements == old(self).measurements,
            final(self).look_back == old(self).look_back,
            final(self).stream_count == old(self).stream_count,
    {
        let n = self.stream_count;
        self.plot_tracker.ensure_initialized(n);
    }

    /// Appends one row of values, column by column: the value in column `i`
    /// goes to the stream at index `i`.  There is no atomic whole-row
    /// commit: each column is one independent append.
    pub fn append_row(&mut self, values: &Vec<u64>)
        requires
            old(self).wf(),
        ensures
            final(self).wf(),
            final(self).streams() == row_appended(
                old(self).streams(),
                values@,
                old(self).look_back as nat,
            ),
            forall|i: int|
                0 <= i < values@.len() ==> stream_at(final(self).streams(), i) == Some(
                    bounded_push(
                        stream_or_empty(old(self).streams(), i),
                        values@[i],
                        old(self).look_back as nat,
                    ),
                ),
            forall|j: int|
                !(0 <= j < values@.len()) ==> stream_at(final(self).streams(), j) == stream_at(
                    old(self).streams(),
                    j,
                ),
            final(self).look_back == old(self).look_back,
            final(self).plot_tracker == old(self).plot_tracker,
    {
        let ghost m = old(self).streams();
        let ghost cap = old(self).look_back as nat;
        let mut i: usize = 0;
        while i < values.len()
            invariant
                old(self).wf(),
                i <= values@.len(),
                self.wf(),
                self.look_back == old(self).look_back,
                cap == self.look_back as nat,
                self.plot_tracker == old(self).plot_tracker,
                self.streams() == row_appended(m, values@.subrange(0, i as int), cap),
            decreases values@.len() - i,
        {
            let ghost prefix = values@.subrange(0, i as int);
            self.append_values(i, values[i]);
            i = i + 1;
            proof {
                let longer = values@.subrange(0, i as int);
                assert(longer.drop_last() =~= prefix);
                assert(longer.last() == values@[i - 1]);
            }
        }
        proof {
            assert(values@.subrange(0, values@.len() as int) =~= values@);
            lemma_row_pointwise(m, values@, cap);
        }
    }

    /// The indices below `stream_count` whose render flag is currently set,
    /// in increasing order.
    pub fn visible_streams(&self) -> (r: Vec<usize>)
        ensures
            r@ == visible_upto(self.plot_tracker, self.stream_count as nat),
    {
        let mut r: Vec<usize> = Vec::new();
        let mut i: usize = 0;
        while i < self.stream_count
            invariant
                i <= self.stream_count,
                r@ == visible_upto(self.plot_tracker, i as nat),
            decreases self.stream_count - i,
        {
            match self.plot_tracker.get(i) {
                Some(flag) => if flag {
                    r.push(i);
                },
                None => (),
            }
            i = i + 1;
        }
        r
    }
}

/// What appending a whole row leaves behind: column `i` of `values` is
/// appended to the stream at index `i`, one bounded append per column.
pub open spec fn row_appended(
    streams: Seq<Option<Seq<u64>>>,
    values: Seq<u64>,
    cap: nat,
) -> Seq<Option<Seq<u64>>>
    decreases values.len(),
{
    if values.len() == 0 {
        streams
    } else {
        appended(
            row_appended(streams, values.drop_last(), cap),
            values.len() - 1,
            values.last(),
            cap,
        )
    }
}

/// The render-flagged stream indices below `count`, in increasing order.
pub open spec fn visible_upto(tracker: PlotTracker, count: nat) -> Seq<usize>
    decreases count,
{
    if count == 0 {
        Seq::empty()
    } else {
        let rest = visible_upto(tracker, (count - 1) as nat);
        if tracker.entry(count - 1) == Some(true) {
            rest.push((count - 1) as usize)
        } else {
            rest
        }
    }
}

/// Copies a stream's samples into a fresh vector.
fn copy_samples(s: &Vec<u64>) -> (out: Vec<u64>)
    ensures
        out@ == s@,
{
    let mut out: Vec<u64> = Vec::new();
    let mut k: usize = 0;
    while k < s.len()
        invariant
            k <= s@.len(),
            out@ =~= s@.subrange(0, k as int),
        decreases s@.len() - k,
    {
        out.push(s[k]);
        k = k + 1;
    }
    proof {
        assert(s@.subrange(0, s@.len() as int) =~= s@);
    }
    out
}

/// Counts the entries that hold a stream.
fn count_present(measurements: &Vec<Option<Vec<u64>>>) -> (n: usize)
    ensures
        n == count_streams(measurements.deep_view()),
{
    let ghost all = measurements.deep_view();
    let mut n: usize = 0;
    let mut i: usize = 0;
    while i < measurements.len()
        invariant
            all == measurements.deep_view(),
            i <= all.len(),
            n <= i,
            n == count_streams(all.subrange(0, i as int)),
        decreases all.len() - i,
    {
        let ghost prefix = all.subrange(0, i as int);
        if measurements[i].is_some() {
            n = n + 1;
        }
        i = i + 1;
        proof {
            let longer = all.subrange(0, i as int);
            assert(longer.drop_last() =~= prefix);
        }
    }
    proof {
        assert(all.subrange(0, all.len() as int) =~= all);
    }
    n
}

/// Growing the store with absent entries leaves the stream count alone.
proof fn lemma_count_pad(streams: Seq<Option<Seq<u64>>>, k: nat)
    ensures
        count_streams(streams + Seq::new(k, |j: int| None)) == count_streams(streams),
    decreases k,
{
    if k == 0 {
        assert(streams + Seq::new(0, |j: int| None) =~= streams);
    } else {
        lemma_count_pad(streams, (k - 1) as nat);
        let padded = streams + Seq::new(k, |j: int| None);
        assert(padded.drop_last() =~= streams + Seq::new((k - 1) as nat, |j: int| None));
        assert(padded.last() is None);
    }
}

/// Replacing one entry with a present stream raises the stream count by one
/// exactly when the entry was absent.
proof fn lemma_count_update(streams: Seq<Option<Seq<u64>>>, index: int, s: Seq<u64>)
    requires
        0 <= index < streams.len(),
    ensures
        count_streams(streams.update(index, Some(s))) == count_streams(streams) + if streams[index] is Some {
            0int
        } else {
            1int
        },
    decreases streams.len(),
{
    let updated = streams.update(index, Some(s));
    if index == streams.len() - 1 {
        assert(updated.drop_last() =~= streams.drop_last());
        assert(updated.last() == Some(s));
    } else {
        lemma_count_update(streams.drop_last(), index, s);
        assert(updated.drop_last() =~= streams.drop_last().update(index, Some(s)));
        assert(updated.last() == streams.last());
    }
}

/// One append raises the stream count by one exactly when it created the
/// stream.
proof fn lemma_count_appended(streams: Seq<Option<Seq<u64>>>, index: int, value: u64, cap: nat)
    requires
        0 <= index,
    ensures
        count_streams(appended(streams, index, value, cap)) == count_streams(streams)
            + if has_stream(streams, index) {
            0int
        } else {
            1int
        },
{
    if index < streams.len() {
        lemma_count_update(streams, index, bounded_push(stream_or_empty(streams, index), value, cap));
    } else {
        let k = (index + 1 - streams.len()) as nat;
        let padded = streams + Seq::new(k, |j: int| None);
        lemma_count_pad(streams, k);
        lemma_count_update(padded, index, bounded_push(stream_or_empty(streams, index), value, cap));
        assert(padded[index] is None);
    }
}

/// An append touches no stream but the one at its own index.
proof fn lemma_appended_frame(
    streams: Seq<Option<Seq<u64>>>,
    index: int,
    value: u64,
    cap: nat,
    j: int,
)
    requires
        0 <= index,
        j != index,
    ensures
        stream_at(appended(streams, index, value, cap), j) == stream_at(streams, j),
{
}

/// Appending a row changes exactly the streams its columns address: the
/// stream at index `i` takes the value in column `i` as one bounded append,
/// and every other stream is untouched.
proof fn lemma_row_pointwise(streams: Seq<Option<Seq<u64>>>, values: Seq<u64>, cap: nat)
    ensures
        forall|i: int|
            0 <= i < values.len() ==> stream_at(
                #[trigger] row_appended(streams, values, cap),
                i,
            ) == Some(bounded_push(stream_or_empty(streams, i), values[i], cap)),
        forall|j: int|
            !(0 <= j < values.len()) ==> stream_at(
                #[trigger] row_appended(streams, values, cap),
                j,
            ) == stream_at(streams, j),
    decreases values.len(),
{
    if values.len() > 0 {
        let shorter = values.drop_last();
        let last_index = values.len() - 1;
        let pre = row_appended(streams, shorter, cap);
        let row = row_appended(streams, values, cap);
        lemma_row_pointwise(streams, shorter, cap);
        assert forall|j: int| j != last_index implies stream_at(row, j) == stream_at(
            pre,
            j,
        ) by {
            lemma_appended_frame(pre, last_index, values.last(), cap, j);
        }
        assert(stream_at(pre, last_index) == stream_at(streams, last_index));
        assert(stream_at(row, last_index) == Some(
            bounded_push(stream_or_empty(streams, last_index), values[last_index], cap),
        ));
    }
}

/// Appends to distinct indices commute.
///
/// Law: when every append runs under the store's lock, a concurrent
/// execution is some interleaving of the appends; since appends to distinct
/// indices commute, any interleaving leaves the store as if the appends had
/// run one after the other, each fully applied exactly once, with no lost
/// updates.
pub proof fn lemma_append_commutes(
    streams: Seq<Option<Seq<u64>>>,
    i: int,
    v: u64,
    j: int,
    w: u64,
    cap: nat,
)
    requires
        0 <= i,
        0 <= j,
        i != j,
    ensures
        appended(appended(streams, i, v, cap), j, w, cap) == appended(
            appended(streams, j, w, cap),
            i,
            v,
            cap,
        ),
{
    let left = appended(appended(streams, i, v, cap), j, w, cap);
    let right = appended(appended(streams, j, w, cap), i, v, cap);
    assert forall|k: int| 0 <= k < left.len() implies left[k] == right[k] by {
        if k == i {
            lemma_appended_frame(appended(streams, i, v, cap), j, w, cap, i);
            lemma_appended_frame(streams, j, w, cap, i);
            assert(left[k] == stream_at(left, k));
            assert(right[k] == stream_at(right, k));
        } else if k == j {
            lemma_appended_frame(appended(streams, j, w, cap), i, v, cap, j);
            lemma_appended_frame(streams, i, v, cap, j);
            assert(left[k] == stream_at(left, k));
            assert(right[k] == stream_at(right, k));
        } else {
            lemma_appended_frame(appended(streams, i, v, cap), j, w, cap, k);
            lemma_appended_frame(streams, i, v, cap, k);
            lemma_appended_frame(appended(streams, j, w, cap), i, v, cap, k);
            lemma_appended_frame(streams, j, w, cap, k);
            assert(left[k] == stream_at(left, k));
            assert(right[k] == stream_at(right, k));
        }
    }
    assert(left =~= right);
}

/// The history a stream holds after any sequence of bounded appends,
/// starting from its creation.
pub open spec fn appends_folded(values: Seq<u64>, cap: nat) -> Seq<u64>
    decreases values.len(),
{
    if values.len() == 0 {
        Seq::empty()
    } else {
        bounded_push(appends_folded(values.drop_last(), cap), values.last(), cap)
    }
}

/// Bounded retention, in strict arrival order.
///
/// Law: after any sequence of appends to one stream, the stream holds
/// exactly the last `cap` appended values — all of them while they number
/// at most `cap` — in their original relative order, so it holds
/// `min(total appends, cap)` samples.
pub proof fn lemma_retention(values: Seq<u64>, cap: nat)
    ensures
        appends_folded(values, cap).len() == if values.len() <= cap {
            values.len()
        } else {
            cap
        },
        values.len() <= cap ==> appends_folded(values, cap) == values,
        values.len() > cap ==> appends_folded(values, cap) == values.subrange(
            values.len() - cap,
            values.len() as int,
        ),
    decreases values.len(),
{
    if values.len() > 0 {
        let shorter = values.drop_last();
        lemma_retention(shorter, cap);
        let pre = appends_folded(shorter, cap);
        let grown = pre.push(values.last());
        if values.len() <= cap {
            assert(grown =~= values);
        } else if values.len() == cap + 1 {
            assert(pre =~= shorter);
            assert(grown.drop_first() =~= values.subrange(values.len() - cap, values.len() as int));
        } else {
            assert(grown.drop_first() =~= values.subrange(values.len() - cap, values.len() as int));
        }
    }
}

/// A run of appends all addressed to the same stream index.
pub open spec fn appended_all(
    streams: Seq<Option<Seq<u64>>>,
    index: int,
    values: Seq<u64>,
    cap: nat,
) -> Seq<Option<Seq<u64>>>
    decreases values.len(),
{
    if values.len() == 0 {
        streams
    } else {
        appended(appended_all(streams, index, values.drop_last(), cap), index, values.last(), cap)
    }
}

/// Bounded retention holds in the store itself.
///
/// Law: a stream that comes into being with its first append and then takes
/// any further values holds exactly the fold of its appends — by
/// [`lemma_retention`], the last `cap` appended values in arrival order.
pub proof fn lemma_store_retention(
    streams: Seq<Option<Seq<u64>>>,
    index: int,
    values: Seq<u64>,
    cap: nat,
)
    requires
        0 <= index,
        !has_stream(streams, index),
    ensures
        stream_or_empty(appended_all(streams, index, values, cap), index) == appends_folded(
            values,
            cap,
        ),
    decreases values.len(),
{
    if values.len() > 0 {
        lemma_store_retention(streams, index, values.drop_last(), cap);
        let pre = appended_all(streams, index, values.drop_last(), cap);
        assert(stream_at(appended_all(streams, index, values, cap), index) == Some(
            bounded_push(stream_or_empty(pre, index), values.last(), cap),
        ));
    }
}

} // verus!
