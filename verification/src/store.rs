//! The stream store: a mapping from numeric stream id to an append-only
//! byte buffer with a last-activity timestamp.
//!
//! Every access that touches an existing stream (append or fetch)
//! refreshes its `last_activity`; eviction never does.  Appends to a
//! missing id are silent no-ops — an explicit create is the only way a
//! stream comes into being.  The caller supplies the clock as a plain
//! seconds value, so every operation is a pure, fully specified function
//! of its inputs.
//!
//! The store is modelled as a `Map<u32, StreamView>`; each operation's
//! contract equates the new view with a spec-level transition function on
//! that map.

use vstd::prelude::*;

verus! {

use crate::serialisation::push_bytes;
use vstd::pervasive::VecAdditionalExecFns;
use vstd::std_specs::vec::vec_index_mut;

/// The most bytes a single stream may hold: the largest length the wire
/// format's 4-byte length fields can carry back out.
pub const MAX_STREAM_LEN: usize = 0xffff_ffff;

/// One stream: its accumulated bytes and the seconds timestamp of the
/// last access that touched it.
pub struct Stream {
    pub buffer: Vec<u8>,
    pub last_activity: u64,
}

/// The mathematical shape of a stream.
pub struct StreamView {
    pub buffer: Seq<u8>,
    pub last_activity: u64,
}

impl View for Stream {
    type V = StreamView;

    open spec fn view(&self) -> StreamView {
        StreamView { buffer: self.buffer@, last_activity: self.last_activity }
    }
}

/// A fresh, empty stream created at `now`.
pub open spec fn spec_fresh_stream(now: u64) -> StreamView {
    StreamView { buffer: Seq::empty(), last_activity: now }
}

/// One append to one stream: the bytes go on the end and the activity
/// timestamp is refreshed, unless the result would no longer fit a wire
/// length field, in which case the stream is left untouched.
pub open spec fn spec_append_to(s: StreamView, data: Seq<u8>, now: u64) -> StreamView {
    if s.buffer.len() + data.len() <= MAX_STREAM_LEN {
        StreamView { buffer: s.buffer + data, last_activity: now }
    } else {
        s
    }
}

/// Creating a stream unconditionally overwrites any prior stream at that id.
pub open spec fn spec_create(m: Map<u32, StreamView>, id: u32, now: u64) -> Map<u32, StreamView> {
    m.insert(id, spec_fresh_stream(now))
}

/// Deleting removes the id if present and does nothing otherwise.
pub open spec fn spec_delete(m: Map<u32, StreamView>, id: u32) -> Map<u32, StreamView> {
    m.remove(id)
}

/// An append to one id: applies only when the id exists.
pub open spec fn spec_enqueue_single(
    m: Map<u32, StreamView>,
    id: u32,
    data: Seq<u8>,
    now: u64,
) -> Map<u32, StreamView> {
    if m.contains_key(id) {
        m.insert(id, spec_append_to(m[id], data, now))
    } else {
        m
    }
}

/// An append to each listed id in turn; absent ids are skipped, and an id
/// listed twice receives the bytes twice.
pub open spec fn spec_enqueue_multiple(
    m: Map<u32, StreamView>,
    ids: Seq<u32>,
    data: Seq<u8>,
    now: u64,
) -> Map<u32, StreamView>
    decreases ids.len(),
{
    if ids.len() == 0 {
        m
    } else {
        spec_enqueue_multiple(spec_enqueue_single(m, ids[0], data, now), ids.drop_first(), data, now)
    }
}

/// An append to every present stream.
pub open spec fn spec_enqueue_all(
    m: Map<u32, StreamView>,
    data: Seq<u8>,
    now: u64,
) -> Map<u32, StreamView> {
    Map::new(|id: u32| m.contains_key(id), |id: u32| spec_append_to(m[id], data, now))
}

/// An append to every present stream whose id is not excluded.
pub open spec fn spec_enqueue_all_except(
    m: Map<u32, StreamView>,
    excluded: Seq<u32>,
    data: Seq<u8>,
    now: u64,
) -> Map<u32, StreamView> {
    Map::new(
        |id: u32| m.contains_key(id),
        |id: u32| if excluded.contains(id) {
            m[id]
        } else {
            spec_append_to(m[id], data, now)
        },
    )
}

/// What a fetch returns: the stream's bytes, or empty bytes for an
/// absent id.
pub open spec fn spec_fetched(m: Map<u32, StreamView>, id: u32) -> Seq<u8> {
    if m.contains_key(id) {
        m[id].buffer
    } else {
        Seq::empty()
    }
}

/// A destructive fetch resets a present stream to empty and refreshes it;
/// an absent id leaves the store unchanged.
pub open spec fn spec_fetch_and_clear(
    m: Map<u32, StreamView>,
    id: u32,
    now: u64,
) -> Map<u32, StreamView> {
    if m.contains_key(id) {
        m.insert(id, spec_fresh_stream(now))
    } else {
        m
    }
}

/// A non-destructive fetch only refreshes a present stream's activity.
pub open spec fn spec_fetch_peek(
    m: Map<u32, StreamView>,
    id: u32,
    now: u64,
) -> Map<u32, StreamView> {
    if m.contains_key(id) {
        m.insert(id, StreamView { buffer: m[id].buffer, last_activity: now })
    } else {
        m
    }
}

/// A stream is expired when its idle time strictly exceeds the threshold.
/// A timestamp in the future never counts as idle.
pub open spec fn spec_is_expired(s: StreamView, now: u64, idle: u64) -> bool {
    s.last_activity <= now && now - s.last_activity > idle
}

/// A sweep removes exactly the expired streams and touches nothing else.
pub open spec fn spec_sweep(
    m: Map<u32, StreamView>,
    now: u64,
    idle: u64,
) -> Map<u32, StreamView> {
    Map::new(|id: u32| m.contains_key(id) && !spec_is_expired(m[id], now, idle), |id: u32| m[id])
}

/// Every stream of the view fits a wire length field.
pub open spec fn bounded_store(m: Map<u32, StreamView>) -> bool {
    forall|id: u32| m.contains_key(id) ==> #[trigger] m[id].buffer.len() <= MAX_STREAM_LEN
}

spec fn ids_unique(s: Seq<(u32, Stream)>) -> bool {
    forall|i: int, j: int| 0 <= i < j < s.len() ==> s[i].0 != s[j].0
}

spec fn caps_ok(s: Seq<(u32, Stream)>) -> bool {
    forall|i: int| 0 <= i < s.len() ==> (#[trigger] s[i].1)@.buffer.len() <= MAX_STREAM_LEN
}

spec fn seq_has_id(s: Seq<(u32, Stream)>, id: u32) -> bool {
    exists|i: int| 0 <= i < s.len() && (#[trigger] s[i]).0 == id
}

spec fn seq_idx_of(s: Seq<(u32, Stream)>, id: u32) -> int {
    choose|i: int| 0 <= i < s.len() && (#[trigger] s[i]).0 == id
}

fn contains_id(list: &[u32], id: u32) -> (r: bool)
    ensures
        r == list@.contains(id),
{
    let mut k: usize = 0;
    while k < list.len()
        invariant
            k <= list@.len(),
            forall|j: int| 0 <= j < k ==> list@[j] != id,
        decreases list@.len() - k,
    {
        if list[k] == id {
            proof {
                assert(list@[k as int] == id);
            }
            return true;
        }
        k = k + 1;
    }
    proof {
        if list@.contains(id) {
            let j = choose|j: int| 0 <= j < list@.len() && list@[j] == id;
            assert(list@[j] != id);
        }
    }
    false
}

fn clone_bytes(v: &Vec<u8>) -> (r: Vec<u8>)
    ensures
        r@ == v@,
{
    let mut r: Vec<u8> = Vec::new();
    push_bytes(&mut r, v.as_slice());
    proof {
        assert(r@ =~= v@);
    }
    r
}

/// The store itself: every operation is internally consistent with the
/// map view, and the caller passes the clock in.
pub struct ServerState {
    streams: Vec<(u32, Stream)>,
}

impl View for ServerState {
    type V = Map<u32, StreamView>;

    closed spec fn view(&self) -> Map<u32, StreamView> {
        Map::new(
            |id: u32| seq_has_id(self.streams@, id),
            |id: u32| self.streams@[seq_idx_of(self.streams@, id)].1@,
        )
    }
}

proof fn lemma_entry_view(s: ServerState, i: int)
    requires
        ids_unique(s.streams@),
        0 <= i < s.streams@.len(),
    ensures
        s@.contains_key(s.streams@[i].0),
        s@[s.streams@[i].0] == s.streams@[i].1@,
        seq_idx_of(s.streams@, s.streams@[i].0) == i,
{
    let id = s.streams@[i].0;
    assert(seq_has_id(s.streams@, id));
    let j = seq_idx_of(s.streams@, id);
    assert(0 <= j < s.streams@.len() && s.streams@[j].0 == id);
    if i < j {
        assert(s.streams@[i].0 != s.streams@[j].0);
    } else if j < i {
        assert(s.streams@[j].0 != s.streams@[i].0);
    }
}

proof fn lemma_view_updated(a: ServerState, b: ServerState, i: int, sv: StreamView)
    requires
        ids_unique(a.streams@),
        0 <= i < a.streams@.len(),
        b.streams@.len() == a.streams@.len(),
        forall|j: int| 0 <= j < a.streams@.len() && j != i ==> b.streams@[j] == a.streams@[j],
        b.streams@[i].0 == a.streams@[i].0,
        b.streams@[i].1@ == sv,
    ensures
        ids_unique(b.streams@),
        b@ == a@.insert(a.streams@[i].0, sv),
{
    assert(forall|j: int| 0 <= j < b.streams@.len() ==> (#[trigger] b.streams@[j]).0
        == a.streams@[j].0);
    let id0 = a.streams@[i].0;
    let target = a@.insert(id0, sv);
    lemma_entry_view(a, i);
    assert forall|k: u32| #[trigger] b@.contains_key(k) == target.contains_key(k) by {
        if seq_has_id(b.streams@, k) {
            let j = seq_idx_of(b.streams@, k);
            assert(0 <= j < b.streams@.len() && b.streams@[j].0 == k);
            assert(seq_has_id(a.streams@, k));
        }
        if seq_has_id(a.streams@, k) {
            let j = seq_idx_of(a.streams@, k);
            assert(0 <= j < a.streams@.len() && a.streams@[j].0 == k);
            assert(b.streams@[j].0 == k);
            assert(seq_has_id(b.streams@, k));
        }
    };
    assert forall|k: u32| b@.contains_key(k) implies #[trigger] b@[k] == target[k] by {
        if k == id0 {
            lemma_entry_view(b, i);
        } else {
            let j = seq_idx_of(a.streams@, k);
            assert(seq_has_id(a.streams@, k));
            assert(0 <= j < a.streams@.len() && a.streams@[j].0 == k);
            assert(j != i);
            lemma_entry_view(a, j);
            lemma_entry_view(b, j);
        }
    };
    assert(b@ =~= target);
}

proof fn lemma_view_pushed(a: ServerState, b: ServerState, id: u32, sv: StreamView)
    requires
        ids_unique(a.streams@),
        !seq_has_id(a.streams@, id),
        b.streams@.len() == a.streams@.len() + 1,
        forall|j: int| 0 <= j < a.streams@.len() ==> b.streams@[j] == a.streams@[j],
        b.streams@[a.streams@.len() as int].0 == id,
        b.streams@[a.streams@.len() as int].1@ == sv,
    ensures
        ids_unique(b.streams@),
        b@ == a@.insert(id, sv),
{
    let n = a.streams@.len() as int;
    assert forall|i: int, j: int| 0 <= i < j < b.streams@.len() implies (#[trigger] b.streams@[i]).0
        != (#[trigger] b.streams@[j]).0 by {
        if j < n {
            assert(a.streams@[i].0 != a.streams@[j].0);
        } else {
            if a.streams@[i].0 == id {
                assert(seq_has_id(a.streams@, id));
            }
        }
    };
    let target = a@.insert(id, sv);
    assert forall|k: u32| #[trigger] b@.contains_key(k) == target.contains_key(k) by {
        if seq_has_id(b.streams@, k) {
            let j = seq_idx_of(b.streams@, k);
            assert(0 <= j < b.streams@.len() && b.streams@[j].0 == k);
            if j < n {
                assert(seq_has_id(a.streams@, k));
            }
        }
        if seq_has_id(a.streams@, k) {
            let j = seq_idx_of(a.streams@, k);
            assert(0 <= j < a.streams@.len() && a.streams@[j].0 == k);
            assert(b.streams@[j].0 == k);
            assert(seq_has_id(b.streams@, k));
        }
        if k == id {
            assert(b.streams@[n].0 == id);
            assert(seq_has_id(b.streams@, k));
        }
    };
    assert forall|k: u32| b@.contains_key(k) implies #[trigger] b@[k] == target[k] by {
        if k == id {
            lemma_entry_view(b, n);
        } else {
            let j = seq_idx_of(b.streams@, k);
            assert(0 <= j < b.streams@.len() && b.streams@[j].0 == k);
            assert(j != n);
            lemma_entry_view(a, j);
            lemma_entry_view(b, j);
        }
    };
    assert(b@ =~= target);
}

proof fn lemma_view_removed(a: ServerState, b: ServerState, i: int)
    requires
        ids_unique(a.streams@),
        0 <= i < a.streams@.len(),
        b.streams@ == a.streams@.remove(i),
    ensures
        ids_unique(b.streams@),
        b@ == a@.remove(a.streams@[i].0),
{
    let id0 = a.streams@[i].0;
    assert forall|p: int, q: int| 0 <= p < q < b.streams@.len() implies (#[trigger] b.streams@[p]).0
        != (#[trigger] b.streams@[q]).0 by {
        let p0: int = if p < i {
            p
        } else {
            p + 1
        };
        let q0: int = if q < i {
            q
        } else {
            q + 1
        };
        assert(b.streams@[p] == a.streams@[p0]);
        assert(b.streams@[q] == a.streams@[q0]);
        assert(a.streams@[p0].0 != a.streams@[q0].0);
    };
    let target = a@.remove(id0);
    lemma_entry_view(a, i);
    assert forall|k: u32| #[trigger] b@.contains_key(k) == target.contains_key(k) by {
        if seq_has_id(b.streams@, k) {
            let j = seq_idx_of(b.streams@, k);
            assert(0 <= j < b.streams@.len() && b.streams@[j].0 == k);
            let j0: int = if j < i {
                j
            } else {
                j + 1
            };
            assert(a.streams@[j0].0 == k);
            assert(seq_has_id(a.streams@, k));
            if k == id0 {
                lemma_entry_view(a, j0);
            }
        }
        if seq_has_id(a.streams@, k) && k != id0 {
            let j = seq_idx_of(a.streams@, k);
            assert(0 <= j < a.streams@.len() && a.streams@[j].0 == k);
            assert(j != i);
            let j1: int = if j < i {
                j
            } else {
                j - 1
            };
            assert(b.streams@[j1].0 == k);
            assert(seq_has_id(b.streams@, k));
        }
    };
    assert forall|k: u32| b@.contains_key(k) implies #[trigger] b@[k] == target[k] by {
        let j = seq_idx_of(b.streams@, k);
        assert(0 <= j < b.streams@.len() && b.streams@[j].0 == k);
        let j0: int = if j < i {
            j
        } else {
            j + 1
        };
        assert(b.streams@[j] == a.streams@[j0]);
        lemma_entry_view(a, j0);
        lemma_entry_view(b, j);
    };
    assert(b@ =~= target);
}

proof fn lemma_view_mapped(
    a: ServerState,
    b: ServerState,
    f: spec_fn(u32, StreamView) -> StreamView,
)
    requires
        ids_unique(a.streams@),
        b.streams@.len() == a.streams@.len(),
        forall|j: int| 0 <= j < a.streams@.len() ==> (#[trigger] b.streams@[j]).0
            == a.streams@[j].0 && b.streams@[j].1@ == f(a.streams@[j].0, a.streams@[j].1@),
    ensures
        ids_unique(b.streams@),
        b@ == Map::new(|id: u32| a@.contains_key(id), |id: u32| f(id, a@[id])),
{
    assert forall|i: int, j: int| 0 <= i < j < b.streams@.len() implies (#[trigger] b.streams@[i]).0
        != (#[trigger] b.streams@[j]).0 by {
        assert(a.streams@[i].0 != a.streams@[j].0);
    };
    let target = Map::new(|id: u32| a@.contains_key(id), |id: u32| f(id, a@[id]));
    assert forall|k: u32| #[trigger] b@.contains_key(k) == target.contains_key(k) by {
        if seq_has_id(b.streams@, k) {
            let j = seq_idx_of(b.streams@, k);
            assert(0 <= j < b.streams@.len() && b.streams@[j].0 == k);
            assert(a.streams@[j].0 == k);
            assert(seq_has_id(a.streams@, k));
            lemma_entry_view(a, j);
        }
        if seq_has_id(a.streams@, k) {
            let j = seq_idx_of(a.streams@, k);
            assert(0 <= j < a.streams@.len() && a.streams@[j].0 == k);
            assert(b.streams@[j].0 == k);
            assert(seq_has_id(b.streams@, k));
            lemma_entry_view(a, j);
        }
    };
    assert forall|k: u32| b@.contains_key(k) implies #[trigger] b@[k] == target[k] by {
        let j = seq_idx_of(b.streams@, k);
        assert(0 <= j < b.streams@.len() && b.streams@[j].0 == k);
        lemma_entry_view(a, j);
        lemma_entry_view(b, j);
    };
    assert(b@ =~= target);
}

impl ServerState {
    /// The store's internal consistency: ids are unique, and no stream
    /// has outgrown what a wire length field can carry.
    pub closed spec fn wf(&self) -> bool {
        ids_unique(self.streams@) && caps_ok(self.streams@)
    }

    /// Every well-formed store has a bounded view.
    pub proof fn lemma_wf_bounded(&self)
        requires
            self.wf(),
        ensures
            bounded_store(self@),
    {
        assert forall|id: u32| self@.contains_key(id) implies #[trigger] self@[id].buffer.len()
            <= MAX_STREAM_LEN by {
            let j = seq_idx_of(self.streams@, id);
            assert(0 <= j < self.streams@.len() && self.streams@[j].0 == id);
            lemma_entry_view(*self, j);
            assert(self.streams@[j].1@.buffer.len() <= MAX_STREAM_LEN);
        };
    }

    /// An empty store.
    pub fn new() -> (r: ServerState)
        ensures
            r.wf(),
            r@ == Map::<u32, StreamView>::empty(),
    {
        let r = ServerState { streams: Vec::new() };
        proof {
            assert(r@ =~= Map::<u32, StreamView>::empty());
        }
        r
    }

    fn find_index(&self, stream_id: u32) -> (r: Option<usize>)
        requires
            self.wf(),
        ensures
            match r {
                Some(i) => i < self.streams@.len() && self.streams@[i as int].0 == stream_id
                    && self@.contains_key(stream_id) && self@[stream_id]
                    == self.streams@[i as int].1@,
                None => !self@.contains_key(stream_id),
            },
    {
        let mut i: usize = 0;
        while i < self.streams.len()
            invariant
                self.wf(),
                i <= self.streams@.len(),
                forall|k: int| 0 <= k < i ==> (#[trigger] self.streams@[k]).0 != stream_id,
            decreases self.streams@.len() - i,
        {
            if self.streams[i].0 == stream_id {
                proof {
                    assert(ids_unique(self.streams@));
                    lemma_entry_view(*self, i as int);
                }
                return Some(i);
            }
            i = i + 1;
        }
        proof {
            if seq_has_id(self.streams@, stream_id) {
                let j = seq_idx_of(self.streams@, stream_id);
                assert(0 <= j < self.streams@.len() && self.streams@[j].0 == stream_id);
            }
        }
        None
    }

    /// Inserts a fresh empty stream, unconditionally overwriting any prior
    /// stream at that id.
    pub fn create_new_stream(&mut self, stream_id: u32, now: u64)
        requires
            old(self).wf(),
        ensures
            final(self).wf(),
            final(self)@ == spec_create(old(self)@, stream_id, now),
    {
        let fresh = Stream { buffer: Vec::new(), last_activity: now };
        match self.find_index(stream_id) {
            Some(i) => {
                self.streams.set(i, (stream_id, fresh));
                proof {
                    lemma_view_updated(*old(self), *self, i as int, spec_fresh_stream(now));
                }
            },
            None => {
                self.streams.push((stream_id, fresh));
                proof {
                    lemma_view_pushed(*old(self), *self, stream_id, spec_fresh_stream(now));
                }
            },
        }
    }

    /// Removes the stream if present; a missing id is a no-op.
    pub fn delete_stream(&mut self, stream_id: u32)
        requires
            old(self).wf(),
        ensures
            final(self).wf(),
            final(self)@ == spec_delete(old(self)@, stream_id),
    {
        match self.find_index(stream_id) {
            Some(i) => {
                self.streams.remove(i);
                proof {
                    lemma_view_removed(*old(self), *self, i as int);
                }
            },
            None => {
                proof {
                    assert(old(self)@ =~= old(self)@.remove(stream_id));
                }
            },
        }
    }

    fn append_entry(&mut self, i: usize, data: &Vec<u8>, now: u64)
        requires
            old(self).wf(),
            i < old(self).streams@.len(),
        ensures
            final(self).wf(),
            final(self).streams@.len() == old(self).streams@.len(),
            forall|j: int| 0 <= j < old(self).streams@.len() && j != i ==> final(self).streams@[j]
                == old(self).streams@[j],
            final(self).streams@[i as int].0 == old(self).streams@[i as int].0,
            final(self).streams@[i as int].1@ == spec_append_to(
                old(self).streams@[i as int].1@,
                data@,
                now,
            ),
    {
        proof {
            assert(caps_ok(old(self).streams@));
            assert(old(self).streams@[i as int].1@.buffer.len() <= MAX_STREAM_LEN);
        }
        let entry = vec_index_mut(&mut self.streams, i);
        if data.len() <= MAX_STREAM_LEN - entry.1.buffer.len() {
            push_bytes(&mut entry.1.buffer, data.as_slice());
            entry.1.last_activity = now;
        }
    }

    /// Appends `data` to the stream at `stream_id` if it exists, refreshing
    /// its activity; a missing id is a no-op and is never created.
    pub fn enqueue_single(&mut self, stream_id: u32, data: &Vec<u8>, now: u64)
        requires
            old(self).wf(),
        ensures
            final(self).wf(),
            final(self)@ == spec_enqueue_single(old(self)@, stream_id, data@, now),
    {
        match self.find_index(stream_id) {
            Some(i) => {
                self.append_entry(i, data, now);
                proof {
                    lemma_view_updated(
                        *old(self),
                        *self,
                        i as int,
                        spec_append_to(old(self).streams@[i as int].1@, data@, now),
                    );
                }
            },
            None => {},
        }
    }

    /// Appends `data` to each listed id that exists; absent ids are skipped
    /// silently, and an id listed twice receives the bytes twice.
    pub fn enqueue_multiple(&mut self, stream_ids: &[u32], data: &Vec<u8>, now: u64)
        requires
            old(self).wf(),
        ensures
            final(self).wf(),
            final(self)@ == spec_enqueue_multiple(old(self)@, stream_ids@, data@, now),
    {
        proof {
            assert(stream_ids@.skip(0) =~= stream_ids@);
        }
        let mut k: usize = 0;
        while k < stream_ids.len()
            invariant
                self.wf(),
                k <= stream_ids@.len(),
                spec_enqueue_multiple(old(self)@, stream_ids@, data@, now)
                    == spec_enqueue_multiple(self@, stream_ids@.skip(k as int), data@, now),
            decreases stream_ids@.len() - k,
        {
            let ghost pre = self@;
            self.enqueue_single(stream_ids[k], data, now);
            proof {
                assert(stream_ids@.skip(k as int).drop_first() =~= stream_ids@.skip(k as int + 1));
                assert(stream_ids@.skip(k as int)[0] == stream_ids@[k as int]);
            }
            k = k + 1;
        }
        proof {
            assert(stream_ids@.skip(stream_ids@.len() as int) =~= Seq::<u32>::empty());
        }
    }

    /// Appends `data` to every present stream.
    pub fn enqueue_all(&mut self, data: &Vec<u8>, now: u64)
        requires
            old(self).wf(),
        ensures
            final(self).wf(),
            final(self)@ == spec_enqueue_all(old(self)@, data@, now),
    {
        let n = self.streams.len();
        let mut i: usize = 0;
        while i < n
            invariant
                self.wf(),
                old(self).wf(),
                i <= n,
                n == self.streams@.len(),
                self.streams@.len() == old(self).streams@.len(),
                forall|j: int| 0 <= j < i ==> (#[trigger] self.streams@[j]).0
                    == old(self).streams@[j].0 && self.streams@[j].1@ == spec_append_to(
                    old(self).streams@[j].1@,
                    data@,
                    now,
                ),
                forall|j: int| i <= j < n ==> #[trigger] self.streams@[j]
                    == old(self).streams@[j],
            decreases n - i,
        {
            self.append_entry(i, data, now);
            i = i + 1;
        }
        proof {
            lemma_view_mapped(
                *old(self),
                *self,
                |id: u32, sv: StreamView| spec_append_to(sv, data@, now),
            );
            assert(self@ =~= spec_enqueue_all(old(self)@, data@, now));
        }
    }

    /// Appends `data` to every present stream whose id is not in
    /// `exclude_stream_ids`.
    pub fn enqueue_all_except(&mut self, exclude_stream_ids: &[u32], data: &Vec<u8>, now: u64)
        requires
            old(self).wf(),
        ensures
            final(self).wf(),
            final(self)@ == spec_enqueue_all_except(old(self)@, exclude_stream_ids@, data@, now),
    {
        let n = self.streams.len();
        let mut i: usize = 0;
        while i < n
            invariant
                self.wf(),
                old(self).wf(),
                i <= n,
                n == self.streams@.len(),
                self.streams@.len() == old(self).streams@.len(),
                forall|j: int| 0 <= j < i ==> (#[trigger] self.streams@[j]).0
                    == old(self).streams@[j].0 && self.streams@[j].1@ == (
                if exclude_stream_ids@.contains(old(self).streams@[j].0) {
                    old(self).streams@[j].1@
                } else {
                    spec_append_to(old(self).streams@[j].1@, data@, now)
                }),
                forall|j: int| i <= j < n ==> #[trigger] self.streams@[j]
                    == old(self).streams@[j],
            decreases n - i,
        {
            let id = self.streams[i].0;
            if !contains_id(exclude_stream_ids, id) {
                self.append_entry(i, data, now);
            }
            i = i + 1;
        }
        proof {
            lemma_view_mapped(
                *old(self),
                *self,
                |id: u32, sv: StreamView| if exclude_stream_ids@.contains(id) {
                    sv
                } else {
                    spec_append_to(sv, data@, now)
                },
            );
            assert(self@ =~= spec_enqueue_all_except(old(self)@, exclude_stream_ids@, data@, now));
        }
    }

    /// Destructive fetch: returns the current contents and resets the
    /// stream to empty, refreshing its activity; `None` for a missing id.
    pub fn fetch_stream_contents(&mut self, stream_id: u32, now: u64) -> (r: Option<Vec<u8>>)
        requires
            old(self).wf(),
        ensures
            final(self).wf(),
            final(self)@ == spec_fetch_and_clear(old(self)@, stream_id, now),
            match r {
                Some(b) => old(self)@.contains_key(stream_id) && b@ == spec_fetched(
                    old(self)@,
                    stream_id,
                ) && b@.len() <= MAX_STREAM_LEN,
                None => !old(self)@.contains_key(stream_id),
            },
    {
        match self.find_index(stream_id) {
            Some(i) => {
                proof {
                    assert(caps_ok(old(self).streams@));
                }
                let entry = vec_index_mut(&mut self.streams, i);
                let out = clone_bytes(&entry.1.buffer);
                entry.1.buffer.clear();
                entry.1.last_activity = now;
                proof {
                    lemma_view_updated(
                        *old(self),
                        *self,
                        i as int,
                        StreamView { buffer: Seq::empty(), last_activity: now },
                    );
                }
                Some(out)
            },
            None => None,
        }
    }

    /// Non-destructive fetch: returns the current contents and refreshes
    /// the stream's activity; `None` for a missing id.
    pub fn fetch_stream_no_clear(&mut self, stream_id: u32, now: u64) -> (r: Option<Vec<u8>>)
        requires
            old(self).wf(),
        ensures
            final(self).wf(),
            final(self)@ == spec_fetch_peek(old(self)@, stream_id, now),
            match r {
                Some(b) => old(self)@.contains_key(stream_id) && b@ == spec_fetched(
                    old(self)@,
                    stream_id,
                ) && b@.len() <= MAX_STREAM_LEN,
                None => !old(self)@.contains_key(stream_id),
            },
    {
        match self.find_index(stream_id) {
            Some(i) => {
                proof {
                    assert(caps_ok(old(self).streams@));
                }
                let entry = vec_index_mut(&mut self.streams, i);
                let out = clone_bytes(&entry.1.buffer);
                entry.1.last_activity = now;
                proof {
                    lemma_view_updated(
                        *old(self),
                        *self,
                        i as int,
                        StreamView {
                            buffer: old(self).streams@[i as int].1@.buffer,
                            last_activity: now,
                        },
                    );
                }
                Some(out)
            },
            None => None,
        }
    }

    /// Removes every stream whose idle time strictly exceeds `idle_time`,
    /// judged against the supplied clock; nothing else is touched and no
    /// activity is refreshed.
    #[verifier::rlimit(50)]
    pub fn prune_expired_streams(&mut self, idle_time: u64, now: u64)
        requires
            old(self).wf(),
        ensures
            final(self).wf(),
            final(self)@ == spec_sweep(old(self)@, now, idle_time),
    {
        let ghost orig = old(self).streams@;
        let mut i: usize = 0;
        let ghost l: int = 0;
        while i < self.streams.len()
            invariant
                old(self).wf(),
                ids_unique(self.streams@),
                caps_ok(self.streams@),
                0 <= i as int <= self.streams@.len(),
                i as int <= l <= orig.len(),
                self.streams@.len() - i as int == orig.len() - l,
                forall|j: int| i <= j < self.streams@.len() ==> #[trigger] self.streams@[j]
                    == orig[j - i + l],
                forall|j: int| 0 <= j < i ==> !spec_is_expired(
                    (#[trigger] self.streams@[j]).1@,
                    now,
                    idle_time,
                ),
                forall|j: int| 0 <= j < i ==> exists|m: int| 0 <= m < l && orig[m]
                    == #[trigger] self.streams@[j],
                forall|m: int| 0 <= m < l && !spec_is_expired((#[trigger] orig[m]).1@, now, idle_time)
                    ==> exists|j: int| 0 <= j < i && self.streams@[j] == orig[m],
            decreases self.streams@.len() - i,
        {
            let la = self.streams[i].1.last_activity;
            if la <= now && now - la > idle_time {
                let ghost pre = *self;
                self.streams.remove(i);
                proof {
                    lemma_view_removed(pre, *self, i as int);
                    assert(pre.streams@[i as int] == orig[l]);
                    assert(spec_is_expired(orig[l].1@, now, idle_time));
                    assert(forall|j: int| 0 <= j < i ==> #[trigger] self.streams@[j]
                        == pre.streams@[j]);
                    assert(forall|j: int| i <= j < self.streams@.len()
                        ==> #[trigger] self.streams@[j] == pre.streams@[j + 1]);
                    assert forall|m: int| 0 <= m < l + 1 && !spec_is_expired(
                        (#[trigger] orig[m]).1@,
                        now,
                        idle_time,
                    ) implies exists|j: int| 0 <= j < i && self.streams@[j] == orig[m] by {
                        assert(m < l);
                        let j = choose|j: int| 0 <= j < i && pre.streams@[j] == orig[m];
                        assert(self.streams@[j] == orig[m]);
                    };
                    l = l + 1;
                }
            } else {
                proof {
                    assert(self.streams@[i as int] == orig[l]);
                    assert(!spec_is_expired(orig[l].1@, now, idle_time));
                    assert forall|m: int| 0 <= m < l + 1 && !spec_is_expired(
                        (#[trigger] orig[m]).1@,
                        now,
                        idle_time,
                    ) implies exists|j: int| 0 <= j < i + 1 && self.streams@[j] == orig[m] by {
                        if m == l {
                            assert(self.streams@[i as int] == orig[m]);
                        } else {
                            let j = choose|j: int| 0 <= j < i && self.streams@[j] == orig[m];
                            assert(self.streams@[j] == orig[m]);
                        }
                    };
                    l = l + 1;
                }
                i = i + 1;
            }
        }
        proof {
            let fin = *self;
            assert(l == orig.len());
            assert forall|k: u32| fin@.contains_key(k) == (old(self)@.contains_key(k)
                && !spec_is_expired(old(self)@[k], now, idle_time)) by {
                if seq_has_id(fin.streams@, k) {
                    let j = seq_idx_of(fin.streams@, k);
                    assert(0 <= j < fin.streams@.len() && fin.streams@[j].0 == k);
                    let m = choose|m: int| 0 <= m < l && orig[m] == fin.streams@[j];
                    assert(0 <= m < l && orig[m] == fin.streams@[j]);
                    lemma_entry_view(*old(self), m);
                }
                if seq_has_id(orig, k) {
                    let m = seq_idx_of(orig, k);
                    assert(0 <= m < orig.len() && orig[m].0 == k);
                    lemma_entry_view(*old(self), m);
                    if !spec_is_expired(orig[m].1@, now, idle_time) {
                        let j = choose|j: int|
                            0 <= j < i && fin.streams@[j] == orig[m];
                        assert(0 <= j < fin.streams@.len() && fin.streams@[j] == orig[m]);
                        assert(seq_has_id(fin.streams@, k));
                    }
                }
            };
            assert forall|k: u32| fin@.contains_key(k) implies #[trigger] fin@[k]
                == old(self)@[k] by {
                let j = seq_idx_of(fin.streams@, k);
                assert(0 <= j < fin.streams@.len() && fin.streams@[j].0 == k);
                let m = choose|m: int| 0 <= m < l && orig[m] == fin.streams@[j];
                assert(0 <= m < l && orig[m] == fin.streams@[j]);
                lemma_entry_view(fin, j);
                lemma_entry_view(*old(self), m);
            };
            assert(fin@ =~= spec_sweep(old(self)@, now, idle_time));
        }
    }

    /// Whether the id currently names a stream.
    pub fn stream_exists(&self, stream_id: u32) -> (r: bool)
        requires
            self.wf(),
        ensures
            r == self@.contains_key(stream_id),
    {
        self.find_index(stream_id).is_some()
    }
}

/// Destructive fetch then peek: once a stream has been fetched and
/// cleared, a fetch with no intervening append returns empty bytes.
pub proof fn lemma_fetch_then_peek(m: Map<u32, StreamView>, id: u32, now: u64)
    ensures
        spec_fetched(spec_fetch_and_clear(m, id, now), id) == Seq::<u8>::empty(),
{
}

/// Non-destructive peek idempotence: a peek leaves the contents exactly as
/// they were, so two consecutive peeks return identical bytes.
pub proof fn lemma_peek_idempotent(m: Map<u32, StreamView>, id: u32, now: u64)
    ensures
        spec_fetched(spec_fetch_peek(m, id, now), id) == spec_fetched(m, id),
{
}

/// Broadcast exclusion: an excluded stream is left exactly as it was,
/// while any other present stream gains the bytes appended, provided the
/// result still fits a wire length field.
pub proof fn lemma_broadcast_exclusion(
    m: Map<u32, StreamView>,
    excluded: Seq<u32>,
    data: Seq<u8>,
    now: u64,
    id: u32,
)
    requires
        m.contains_key(id),
    ensures
        spec_enqueue_all_except(m, excluded, data, now).contains_key(id),
        excluded.contains(id) ==> spec_enqueue_all_except(m, excluded, data, now)[id] == m[id],
        !excluded.contains(id) && m[id].buffer.len() + data.len() <= MAX_STREAM_LEN
            ==> spec_enqueue_all_except(m, excluded, data, now)[id].buffer == m[id].buffer + data,
{
}

/// Eviction: a sweep keeps exactly the streams that are not expired at
/// sweep time, and keeps them untouched.
pub proof fn lemma_sweep_membership(m: Map<u32, StreamView>, now: u64, idle: u64, id: u32)
    ensures
        spec_sweep(m, now, idle).contains_key(id) == (m.contains_key(id) && !spec_is_expired(
            m[id],
            now,
            idle,
        )),
        spec_sweep(m, now, idle).contains_key(id) ==> spec_sweep(m, now, idle)[id] == m[id],
{
}

/// Unknown-id safety: an id that was never created fetches as empty bytes,
/// and an append to it changes nothing and does not create it.
pub proof fn lemma_unknown_id(m: Map<u32, StreamView>, id: u32, data: Seq<u8>, now: u64)
    requires
        !m.contains_key(id),
    ensures
        spec_fetched(m, id) == Seq::<u8>::empty(),
        spec_enqueue_single(m, id, data, now) == m,
        !spec_enqueue_single(m, id, data, now).contains_key(id),
{
}

} // verus!
