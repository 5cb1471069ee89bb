//! Event sourcing storage: an append-only store of event streams keyed by
//! aggregate id, a store of state snapshots, and the snapshot policy.
use vstd::prelude::*;
use crate::text::str_eq;

verus! {

/// A snapshot is taken every this many events.
pub const SNAPSHOT_INTERVAL: usize = 3;

/// Whether a snapshot is due once a stream has reached `version` events.
pub open spec fn snapshot_due_spec(version: int) -> bool {
    version > 0 && version % (SNAPSHOT_INTERVAL as int) == 0
}

/// Snapshots fall due at the interval's positive multiples: never at
/// version 0 nor before the first interval is complete, at the interval
/// itself, and again every interval after.
pub proof fn lemma_snapshot_every_interval(version: int)
    requires
        version >= 0,
    ensures
        !snapshot_due_spec(0),
        snapshot_due_spec(SNAPSHOT_INTERVAL as int),
        0 < version < SNAPSHOT_INTERVAL ==> !snapshot_due_spec(version),
        version > 0 ==> snapshot_due_spec(version + SNAPSHOT_INTERVAL) == snapshot_due_spec(version),
{
}

/// Whether a snapshot is due once a stream has reached `version` events:
/// at every positive multiple of the interval.
pub fn snapshot_due(version: usize) -> (r: bool)
    ensures
        r == snapshot_due_spec(version as int),
{
    version > 0 && version % SNAPSHOT_INTERVAL == 0
}

/// Whether no key occurs twice among the entries.
pub open spec fn keys_distinct<V>(e: Seq<(String, V)>) -> bool {
    forall|i: int, j: int| 0 <= i < j < e.len() ==> (#[trigger] e[i]).0@ != (#[trigger] e[j]).0@
}

/// The map from each key to the value stored beside it.
pub open spec fn keyed<V>(e: Seq<(String, V)>) -> Map<Seq<char>, V> {
    Map::new(
        |k: Seq<char>| exists|i: int| 0 <= i < e.len() && e[i].0@ == k,
        |k: Seq<char>|
            {
                let i = choose|i: int| 0 <= i < e.len() && e[i].0@ == k;
                e[i].1
            },
    )
}

proof fn lemma_keyed_at<V>(e: Seq<(String, V)>, i: int)
    requires
        keys_distinct(e),
        0 <= i < e.len(),
    ensures
        keyed(e).contains_key(e[i].0@),
        keyed(e)[e[i].0@] == e[i].1,
{
    let k = e[i].0@;
    assert(0 <= i < e.len() && e[i].0@ == k);
    let j = choose|j: int| 0 <= j < e.len() && e[j].0@ == k;
    if i < j {
        assert(e[i].0@ != e[j].0@);
    } else if j < i {
        assert(e[j].0@ != e[i].0@);
    }
}

/// Replacing the value at an existing entry updates the map at its key.
proof fn lemma_keyed_update<V>(e: Seq<(String, V)>, i: int, v: V)
    requires
        keys_distinct(e),
        0 <= i < e.len(),
    ensures
        keys_distinct(e.update(i, (e[i].0, v))),
        keyed(e.update(i, (e[i].0, v))) == keyed(e).insert(e[i].0@, v),
{
    let f = e.update(i, (e[i].0, v));
    assert forall|a: int, b: int| 0 <= a < b < f.len() implies (#[trigger] f[a]).0@ != (
    #[trigger] f[b]).0@ by {
        assert(f[a].0 == e[a].0 && f[b].0 == e[b].0);
    }
    assert forall|k: Seq<char>| #![auto] keyed(f).contains_key(k) == keyed(e).insert(
        e[i].0@,
        v,
    ).contains_key(k) by {
        if keyed(e).contains_key(k) {
            let j = choose|j: int| 0 <= j < e.len() && e[j].0@ == k;
            assert(f[j].0@ == k);
        }
        if keyed(f).contains_key(k) {
            let j = choose|j: int| 0 <= j < f.len() && f[j].0@ == k;
            assert(e[j].0@ == k);
        }
        assert(f[i].0@ == e[i].0@);
    }
    assert forall|k: Seq<char>| #[trigger] keyed(f).contains_key(k) implies keyed(f)[k] == keyed(
        e,
    ).insert(e[i].0@, v)[k] by {
        let j = choose|j: int| 0 <= j < f.len() && f[j].0@ == k;
        lemma_keyed_at(f, j);
        if j != i {
            lemma_keyed_at(e, j);
        }
    }
    assert(keyed(f) =~= keyed(e).insert(e[i].0@, v));
}

/// Adding an entry under a new key inserts it into the map.
proof fn lemma_keyed_push<V>(e: Seq<(String, V)>, key: String, v: V)
    requires
        keys_distinct(e),
        !keyed(e).contains_key(key@),
    ensures
        keys_distinct(e.push((key, v))),
        keyed(e.push((key, v))) == keyed(e).insert(key@, v),
{
    let f = e.push((key, v));
    assert forall|a: int, b: int| 0 <= a < b < f.len() implies (#[trigger] f[a]).0@ != (
    #[trigger] f[b]).0@ by {
        if b == e.len() {
            assert(f[a] == e[a]);
            if e[a].0@ == key@ {
                assert(keyed(e).contains_key(key@));
            }
        } else {
            assert(f[a] == e[a] && f[b] == e[b]);
        }
    }
    assert forall|k: Seq<char>| #![auto] keyed(f).contains_key(k) == keyed(e).insert(
        key@,
        v,
    ).contains_key(k) by {
        if keyed(e).contains_key(k) {
            let j = choose|j: int| 0 <= j < e.len() && e[j].0@ == k;
            assert(f[j] == e[j]);
        }
        if keyed(f).contains_key(k) && k != key@ {
            let j = choose|j: int| 0 <= j < f.len() && f[j].0@ == k;
            assert(f[j] == e[j]);
        }
        assert(f[e.len() as int].0@ == key@);
    }
    assert forall|k: Seq<char>| #[trigger] keyed(f).contains_key(k) implies keyed(f)[k] == keyed(
        e,
    ).insert(key@, v)[k] by {
        let j = choose|j: int| 0 <= j < f.len() && f[j].0@ == k;
        lemma_keyed_at(f, j);
        if j < e.len() {
            assert(f[j] == e[j]);
            lemma_keyed_at(e, j);
        }
    }
    assert(keyed(f) =~= keyed(e).insert(key@, v));
}

/// The index of the entry under `key`, if there is one.
fn find_key<V>(entries: &Vec<(String, V)>, key: &str) -> (r: Option<usize>)
    requires
        keys_distinct(entries@),
    ensures
        r matches Some(i) ==> i < entries@.len() && entries@[i as int].0@ == key@,
        r is None ==> !keyed(entries@).contains_key(key@),
{
    let mut i: usize = 0;
    while i < entries.len()
        invariant
            i <= entries@.len(),
            forall|k: int| 0 <= k < i ==> (#[trigger] entries@[k]).0@ != key@,
        decreases entries@.len() - i,
    {
        if str_eq(entries[i].0.as_str(), key) {
            return Some(i);
        }
        i = i + 1;
    }
    None
}

/// The events recorded for `id` in `streams`: none when it has no stream.
pub open spec fn stream_of<E>(streams: Map<Seq<char>, Seq<E>>, id: Seq<char>) -> Seq<E> {
    if streams.contains_key(id) {
        streams[id]
    } else {
        Seq::empty()
    }
}

/// An append-only store of event streams, one per aggregate id. Events are
/// never changed or removed; a stream's version is its number of events.
pub struct EventStore<E> {
    streams: Vec<(String, Vec<E>)>,
}

impl<E> View for EventStore<E> {
    type V = Map<Seq<char>, Seq<E>>;

    closed spec fn view(&self) -> Map<Seq<char>, Seq<E>> {
        keyed(self.streams@).map_values(|v: Vec<E>| v@)
    }
}

impl<E> EventStore<E> {
    /// Each id has at most one stream.
    pub closed spec fn wf(&self) -> bool {
        keys_distinct(self.streams@)
    }

    /// An empty store.
    pub fn new() -> (r: Self)
        ensures
            r.wf(),
            r@ == Map::<Seq<char>, Seq<E>>::empty(),
    {
        let r = EventStore { streams: Vec::new() };
        assert(r@ =~= Map::<Seq<char>, Seq<E>>::empty());
        r
    }

    /// Appends `events` to the stream of `account_id`, opening the stream
    /// (possibly empty) if it had none.
    pub fn append(&mut self, account_id: &str, events: Vec<E>)
        requires
            old(self).wf(),
        ensures
            final(self).wf(),
            final(self)@ == old(self)@.insert(
                account_id@,
                stream_of(old(self)@, account_id@) + events@,
            ),
    {
        let mut events = events;
        let ghost added = events@;
        let ghost before = self.streams@;
        match find_key(&self.streams, account_id) {
            Some(i) => {
                let (key, mut stream) = self.streams.remove(i);
                let ghost old_stream = stream@;
                stream.append(&mut events);
                proof {
                    lemma_keyed_at(before, i as int);
                    assert(old_stream == stream_of(old(self)@, account_id@));
                }
                self.streams.insert(i, (key, stream));
                proof {
                    assert(self.streams@ =~= before.update(i as int, (before[i as int].0, stream)));
                    lemma_keyed_update(before, i as int, stream);
                    assert(self@ =~= old(self)@.insert(
                        account_id@,
                        stream_of(old(self)@, account_id@) + added,
                    ));
                }
            },
            None => {
                let key = account_id.to_owned();
                self.streams.push((key, events));
                proof {
                    lemma_keyed_push(before, key, events);
                    assert(stream_of(old(self)@, account_id@) + added =~= added);
                    assert(self@ =~= old(self)@.insert(
                        account_id@,
                        stream_of(old(self)@, account_id@) + added,
                    ));
                }
            },
        }
    }

    /// All events of `account_id`'s stream, oldest first; none if it has no
    /// stream.
    pub fn load(&self, account_id: &str) -> (r: &[E])
        requires
            self.wf(),
        ensures
            r@ == stream_of(self@, account_id@),
    {
        match find_key(&self.streams, account_id) {
            Some(i) => {
                proof {
                    lemma_keyed_at(self.streams@, i as int);
                }
                self.streams[i].1.as_slice()
            },
            None => &[],
        }
    }

    /// The events of `account_id`'s stream from position `from_version`
    /// on; none if it has no stream.
    pub fn load_from_version(&self, account_id: &str, from_version: usize) -> (r: &[E])
        requires
            self.wf(),
            self@.contains_key(account_id@) ==> from_version <= self@[account_id@].len(),
        ensures
            r@ == stream_of(self@, account_id@).subrange(
                if self@.contains_key(account_id@) { from_version as int } else { 0 },
                stream_of(self@, account_id@).len() as int,
            ),
    {
        match find_key(&self.streams, account_id) {
            Some(i) => {
                proof {
                    lemma_keyed_at(self.streams@, i as int);
                }
                let stream = self.streams[i].1.as_slice();
                vstd::slice::slice_subrange(stream, from_version, stream.len())
            },
            None => {
                let r: &[E] = &[];
                assert(r@ =~= stream_of(self@, account_id@).subrange(0, 0));
                r
            },
        }
    }

    /// The number of events in `account_id`'s stream.
    pub fn version(&self, account_id: &str) -> (r: usize)
        requires
            self.wf(),
        ensures
            r == stream_of(self@, account_id@).len(),
    {
        match find_key(&self.streams, account_id) {
            Some(i) => {
                proof {
                    lemma_keyed_at(self.streams@, i as int);
                }
                self.streams[i].1.len()
            },
            None => 0,
        }
    }
}

/// The state reached from `s` by applying `events` in order.
pub open spec fn replay<S, E>(apply: spec_fn(S, E) -> S, s: S, events: Seq<E>) -> S
    decreases events.len(),
{
    if events.len() == 0 {
        s
    } else {
        apply(replay(apply, s, events.drop_last()), events.last())
    }
}

/// Replaying a history in two parts, first up to `v` and then from `v`
/// on, gives the state that replaying it whole gives.
proof fn lemma_replay_split<S, E>(apply: spec_fn(S, E) -> S, s: S, events: Seq<E>, v: int)
    requires
        0 <= v <= events.len(),
    ensures
        replay(apply, replay(apply, s, events.take(v)), events.subrange(v, events.len() as int))
            == replay(apply, s, events),
    decreases events.len(),
{
    if events.len() == v {
        assert(events.take(v) =~= events);
        assert(events.subrange(v, events.len() as int) =~= Seq::<E>::empty());
    } else {
        let shorter = events.drop_last();
        lemma_replay_split(apply, s, shorter, v);
        assert(shorter.take(v) =~= events.take(v));
        let tail = events.subrange(v, events.len() as int);
        assert(tail.drop_last() =~= shorter.subrange(v, shorter.len() as int));
        assert(tail.last() == events.last());
    }
}

/// A snapshot of a stream's state at version `v`, with the events that
/// `load_from_version` gives from `v` on replayed over it, equals the state
/// replayed from the whole stream that `load` gives.
pub proof fn lemma_snapshot_replay<S, E>(
    apply: spec_fn(S, E) -> S,
    init: S,
    streams: Map<Seq<char>, Seq<E>>,
    id: Seq<char>,
    v: int,
)
    requires
        0 <= v <= stream_of(streams, id).len(),
    ensures
        ({
            let whole = stream_of(streams, id);
            let snapshot = replay(apply, init, whole.take(v));
            replay(apply, snapshot, whole.subrange(v, whole.len() as int)) == replay(
                apply,
                init,
                whole,
            )
        }),
{
    lemma_replay_split(apply, init, stream_of(streams, id), v);
}

/// Appending to one stream leaves every stream's earlier events as they
/// were: the old stream is a prefix of the new one, and other streams do not
/// change.
pub proof fn lemma_append_only<E>(
    streams: Map<Seq<char>, Seq<E>>,
    id: Seq<char>,
    events: Seq<E>,
    other: Seq<char>,
)
    ensures
        ({
            let after = streams.insert(id, stream_of(streams, id) + events);
            &&& stream_of(after, other).len() >= stream_of(streams, other).len()
            &&& stream_of(after, other).take(stream_of(streams, other).len() as int) == stream_of(
                streams,
                other,
            )
            &&& other != id ==> stream_of(after, other) == stream_of(streams, other)
        }),
{
    let after = streams.insert(id, stream_of(streams, id) + events);
    if other == id {
        assert((stream_of(streams, id) + events).take(stream_of(streams, id).len() as int)
            =~= stream_of(streams, id));
    } else {
        assert(stream_of(after, other).take(stream_of(streams, other).len() as int)
            =~= stream_of(streams, other));
    }
}

/// An aggregate's state as it stood after its first `version` events.
pub struct Snapshot<S> {
    pub state: S,
    pub version: usize,
}

/// The latest snapshot of each aggregate.
pub struct SnapshotStore<S> {
    snapshots: Vec<(String, Snapshot<S>)>,
}

impl<S> View for SnapshotStore<S> {
    type V = Map<Seq<char>, Snapshot<S>>;

    closed spec fn view(&self) -> Map<Seq<char>, Snapshot<S>> {
        keyed(self.snapshots@)
    }
}

impl<S> SnapshotStore<S> {
    /// Each id has at most one snapshot.
    pub closed spec fn wf(&self) -> bool {
        keys_distinct(self.snapshots@)
    }

    /// An empty store.
    pub fn new() -> (r: Self)
        ensures
            r.wf(),
            r@ == Map::<Seq<char>, Snapshot<S>>::empty(),
    {
        let r = SnapshotStore { snapshots: Vec::new() };
        assert(r@ =~= Map::<Seq<char>, Snapshot<S>>::empty());
        r
    }

    /// Records `state` at `version` as `account_id`'s snapshot, replacing
    /// any earlier one.
    pub fn save(&mut self, account_id: &str, state: S, version: usize)
        requires
            old(self).wf(),
        ensures
            final(self).wf(),
            final(self)@ == old(self)@.insert(account_id@, Snapshot { state, version }),
    {
        let ghost before = self.snapshots@;
        let snapshot = Snapshot { state, version };
        match find_key(&self.snapshots, account_id) {
            Some(i) => {
                let (key, _) = self.snapshots.remove(i);
                self.snapshots.insert(i, (key, snapshot));
                proof {
                    assert(self.snapshots@ =~= before.update(i as int, (before[i as int].0, snapshot)));
                    lemma_keyed_update(before, i as int, snapshot);
                }
            },
            None => {
                let key = account_id.to_owned();
                self.snapshots.push((key, snapshot));
                proof {
                    lemma_keyed_push(before, key, snapshot);
                }
            },
        }
    }

    /// `account_id`'s snapshot, if one was saved.
    pub fn load(&self, account_id: &str) -> (r: Option<&Snapshot<S>>)
        requires
            self.wf(),
        ensures
            self@.contains_key(account_id@) ==> r == Some(&self@[account_id@]),
            !self@.contains_key(account_id@) ==> r is None,
    {
        match find_key(&self.snapshots, account_id) {
            Some(i) => {
                proof {
                    lemma_keyed_at(self.snapshots@, i as int);
                }
                Some(&self.snapshots[i].1)
            },
            None => None,
        }
    }
}

} // verus!
