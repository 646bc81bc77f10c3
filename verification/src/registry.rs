//! Session registry: the authoritative, concurrency-safe mapping from
//! session id to session metadata. The backing container is a `DashMap`; the
//! operations the bridge relies on are specified against a map abstraction of
//! its contents, and the registry logic on top is verified against them.

use vstd::prelude::*;

verus! {

/// Where a live session stands. `Closing` and `Terminated` are not phases of
/// an entry: a session entering teardown leaves the registry, exactly once,
/// and an id without an entry is no session at all.
#[derive(Clone, Copy, Debug, PartialEq, Eq, Structural)]
pub enum SessionPhase {
    /// Registered; the relay flows have not started yet.
    Created,
    /// The bidirectional relay is running.
    Active,
}

/// What the registry records per session: its phase, current geometry and the
/// two timestamps, in milliseconds of the server clock.
#[derive(Clone, Copy)]
pub struct SessionMeta {
    pub phase: SessionPhase,
    pub rows: u16,
    pub cols: u16,
    pub created_at_ms: u64,
    pub last_activity_ms: u64,
}

#[verifier::external_type_specification]
#[verifier::external_body]
#[verifier::reject_recursive_types(K)]
#[verifier::reject_recursive_types(V)]
#[verifier::reject_recursive_types(S)]
pub struct ExDashMap<K, V, S>(dashmap::DashMap<K, V, S>);

/// The shared concurrent container the registry is backed by.
pub struct SessionTable {
    inner: dashmap::DashMap<u128, SessionMeta>,
}

/// The entries the table currently holds, as a map.
pub uninterp spec fn table_map(t: SessionTable) -> Map<u128, SessionMeta>;

/// The registry contents at rest: no sessions.
pub open spec fn empty_sessions() -> Map<u128, SessionMeta> {
    Map::empty()
}

impl SessionTable {
    /// Relies on dashmap::DashMap::new: creates an empty map.
    #[verifier::external_body]
    fn new() -> (r: SessionTable)
        ensures
            table_map(r) == empty_sessions(),
    {
        SessionTable { inner: dashmap::DashMap::new() }
    }

    /// Relies on dashmap::DashMap::insert: maps the key to the value and
    /// returns the value it replaced, if any.
    #[verifier::external_body]
    fn insert(&mut self, id: u128, m: SessionMeta) -> (r: Option<SessionMeta>)
        ensures
            table_map(*final(self)) == table_map(*old(self)).insert(id, m),
            r is Some <==> table_map(*old(self)).contains_key(id),
            r matches Some(prev) ==> prev == table_map(*old(self))[id],
    {
        self.inner.insert(id, m)
    }

    /// Relies on dashmap::DashMap::get: returns the value under the key, if
    /// any.
    #[verifier::external_body]
    fn get(&self, id: u128) -> (r: Option<SessionMeta>)
        ensures
            r is Some <==> table_map(*self).contains_key(id),
            r matches Some(m) ==> m == table_map(*self)[id],
    {
        self.inner.get(&id).map(|e| *e.value())
    }

    /// Relies on dashmap::DashMap::remove: takes the entry under the key out
    /// of the map and returns it, if it existed.
    #[verifier::external_body]
    fn remove(&mut self, id: u128) -> (r: Option<SessionMeta>)
        ensures
            table_map(*final(self)) == table_map(*old(self)).remove(id),
            r is Some <==> table_map(*old(self)).contains_key(id),
            r matches Some(m) ==> m == table_map(*old(self))[id],
    {
        self.inner.remove(&id).map(|kv| kv.1)
    }

    /// Relies on dashmap::DashMap::len: the number of entries stored.
    #[verifier::external_body]
    fn len(&self) -> (r: usize)
        requires
            table_map(*self).dom().finite(),
        ensures
            r as nat == table_map(*self).dom().len(),
    {
        self.inner.len()
    }

    /// Relies on dashmap::DashMap::iter: yields every entry exactly once, in
    /// no particular order.
    #[verifier::external_body]
    fn entries(&self) -> (r: Vec<(u128, SessionMeta)>)
        requires
            table_map(*self).dom().finite(),
        ensures
            forall|i: int|
                0 <= i < r@.len() ==> table_map(*self).contains_pair(
                    (#[trigger] r@[i]).0,
                    r@[i].1,
                ),
            forall|i: int, j: int| 0 <= i < j < r@.len() ==> r@[i].0 != r@[j].0,
            forall|id: u128|
                table_map(*self).dom().contains(id) ==> exists|i: int|
                    0 <= i < r@.len() && (#[trigger] r@[i]).0 == id,
    {
        self.inner.iter().map(|e| (*e.key(), *e.value())).collect()
    }
}

/// A session is stale when more than `threshold_ms` has passed since its last
/// observed activity.
pub open spec fn is_stale(m: SessionMeta, now_ms: u64, threshold_ms: u64) -> bool {
    now_ms > m.last_activity_ms + threshold_ms
}

/// The session registry: a session exists exactly while it has an entry here.
pub struct SessionRegistry {
    table: SessionTable,
}

impl SessionRegistry {
    /// The registered sessions.
    pub closed spec fn sessions(&self) -> Map<u128, SessionMeta> {
        table_map(self.table)
    }

    pub closed spec fn wf(&self) -> bool {
        self.sessions().dom().finite()
    }

    pub fn new() -> (r: SessionRegistry)
        ensures
            r.wf(),
            r.sessions() == empty_sessions(),
    {
        let table = SessionTable::new();
        let r = SessionRegistry { table };
        proof {
            assert(r.sessions().dom() =~= Set::<u128>::empty());
        }
        r
    }

    /// Register a fresh session at the given geometry; refused when the id is
    /// already taken, so ids in the registry are always distinct.
    pub fn register(&mut self, id: u128, rows: u16, cols: u16, now_ms: u64) -> (r: bool)
        requires
            old(self).wf(),
        ensures
            final(self).wf(),
            r == !old(self).sessions().contains_key(id),
            r ==> final(self).sessions() == old(self).sessions().insert(
                id,
                SessionMeta {
                    phase: SessionPhase::Created,
                    rows,
                    cols,
                    created_at_ms: now_ms,
                    last_activity_ms: now_ms,
                },
            ),
            !r ==> final(self).sessions() == old(self).sessions(),
    {
        match self.table.get(id) {
            Some(_) => false,
            None => {
                let m = SessionMeta {
                    phase: SessionPhase::Created,
                    rows,
                    cols,
                    created_at_ms: now_ms,
                    last_activity_ms: now_ms,
                };
                self.table.insert(id, m);
                true
            },
        }
    }

    /// The relay flows for `id` are running: the session becomes active.
    /// Unknown ids are left alone.
    pub fn mark_active(&mut self, id: u128)
        requires
            old(self).wf(),
        ensures
            final(self).wf(),
            old(self).sessions().contains_key(id) ==> final(self).sessions() == old(
                self,
            ).sessions().insert(
                id,
                SessionMeta { phase: SessionPhase::Active, ..old(self).sessions()[id] },
            ),
            !old(self).sessions().contains_key(id) ==> final(self).sessions() == old(
                self,
            ).sessions(),
    {
        match self.table.get(id) {
            Some(m) => {
                let updated = SessionMeta { phase: SessionPhase::Active, ..m };
                self.table.insert(id, updated);
            },
            None => (),
        }
    }

    /// The metadata under `id`, if the session exists.
    pub fn lookup(&self, id: u128) -> (r: Option<SessionMeta>)
        ensures
            r is Some <==> self.sessions().contains_key(id),
            r matches Some(m) ==> m == self.sessions()[id],
    {
        self.table.get(id)
    }

    /// Mark activity on a session: its `last_activity` becomes `now_ms`.
    /// Unknown ids are left alone.
    pub fn touch(&mut self, id: u128, now_ms: u64)
        requires
            old(self).wf(),
        ensures
            final(self).wf(),
            old(self).sessions().contains_key(id) ==> final(self).sessions() == old(
                self,
            ).sessions().insert(
                id,
                SessionMeta { last_activity_ms: now_ms, ..old(self).sessions()[id] },
            ),
            !old(self).sessions().contains_key(id) ==> final(self).sessions() == old(
                self,
            ).sessions(),
    {
        match self.table.get(id) {
            Some(m) => {
                let updated = SessionMeta { last_activity_ms: now_ms, ..m };
                self.table.insert(id, updated);
            },
            None => (),
        }
    }

    /// Record a new geometry for the session, marking activity as well.
    pub fn set_geometry(&mut self, id: u128, rows: u16, cols: u16, now_ms: u64)
        requires
            old(self).wf(),
        ensures
            final(self).wf(),
            old(self).sessions().contains_key(id) ==> final(self).sessions() == old(
                self,
            ).sessions().insert(
                id,
                SessionMeta {
                    rows,
                    cols,
                    last_activity_ms: now_ms,
                    ..old(self).sessions()[id]
                },
            ),
            !old(self).sessions().contains_key(id) ==> final(self).sessions() == old(
                self,
            ).sessions(),
    {
        match self.table.get(id) {
            Some(m) => {
                let updated = SessionMeta { rows, cols, last_activity_ms: now_ms, ..m };
                self.table.insert(id, updated);
            },
            None => (),
        }
    }

    /// Remove the session's entry. Removing an absent id changes nothing, so
    /// the removal half of teardown is idempotent; the caller learns from the
    /// result whether this call was the one that removed the entry.
    pub fn remove_session(&mut self, id: u128) -> (r: bool)
        requires
            old(self).wf(),
        ensures
            final(self).wf(),
            r == old(self).sessions().contains_key(id),
            final(self).sessions() == old(self).sessions().remove(id),
    {
        self.table.remove(id).is_some()
    }

    /// How many sessions are live.
    pub fn active_count(&self) -> (r: usize)
        requires
            self.wf(),
        ensures
            r as nat == self.sessions().dom().len(),
    {
        self.table.len()
    }

    /// The ids of every stale session: exactly those whose last activity lies
    /// more than `threshold_ms` before `now_ms`.
    pub fn stale_ids(&self, now_ms: u64, threshold_ms: u64) -> (r: Vec<u128>)
        requires
            self.wf(),
        ensures
            forall|id: u128|
                #[trigger] r@.contains(id) <==> self.sessions().contains_key(id) && is_stale(
                    self.sessions()[id],
                    now_ms,
                    threshold_ms,
                ),
            forall|i: int, j: int| 0 <= i < j < r@.len() ==> r@[i] != r@[j],
    {
        let es = self.table.entries();
        let n = es.len();
        let mut out: Vec<u128> = Vec::new();
        let mut i: usize = 0;
        while i < n
            invariant
                0 <= i <= n,
                n == es@.len(),
                forall|i2: int|
                    0 <= i2 < es@.len() ==> table_map(self.table).contains_pair(
                        (#[trigger] es@[i2]).0,
                        es@[i2].1,
                    ),
                forall|i2: int, j2: int| 0 <= i2 < j2 < es@.len() ==> es@[i2].0 != es@[j2].0,
                forall|id: u128|
                    #[trigger] out@.contains(id) <==> exists|j: int|
                        0 <= j < i && (#[trigger] es@[j]).0 == id && is_stale(
                            es@[j].1,
                            now_ms,
                            threshold_ms,
                        ),
                forall|i2: int, j2: int| 0 <= i2 < j2 < out@.len() ==> out@[i2] != out@[j2],
            decreases n - i,
        {
            let meta = es[i].1;
            let stale = now_ms > threshold_ms && meta.last_activity_ms < now_ms - threshold_ms;
            proof {
                assert(stale == is_stale(meta, now_ms, threshold_ms));
            }
            if stale {
                let ghost pre = out@;
                out.push(es[i].0);
                proof {
                    assert(forall|id: u128|
                        #[trigger] out@.contains(id) <==> pre.contains(id) || id == es@[i as int].0)
                        by {
                        assert(forall|id: u128| #[trigger]
                            out@.contains(id) ==> pre.contains(id) || id == es@[i as int].0) by {
                            assert(forall|k: int|
                                0 <= k < out@.len() ==> out@[k] == if k < pre.len() {
                                    pre[k]
                                } else {
                                    es@[i as int].0
                                });
                        }
                        assert(out@[out@.len() - 1] == es@[i as int].0);
                        assert(forall|k: int| 0 <= k < pre.len() ==> out@[k] == pre[k]);
                    }
                    assert(!pre.contains(es@[i as int].0)) by {
                        if pre.contains(es@[i as int].0) {
                            let j = choose|j: int|
                                0 <= j < i && (#[trigger] es@[j]).0 == es@[i as int].0 && is_stale(
                                    es@[j].1,
                                    now_ms,
                                    threshold_ms,
                                );
                            assert(es@[j].0 != es@[i as int].0);
                        }
                    }
                }
            }
            i = i + 1;
        }
        proof {
            assert(forall|id: u128|
                #[trigger] out@.contains(id) <==> self.sessions().contains_key(id) && is_stale(
                    self.sessions()[id],
                    now_ms,
                    threshold_ms,
                )) by {
                assert(forall|id: u128|
                    self.sessions().contains_key(id) && is_stale(
                        self.sessions()[id],
                        now_ms,
                        threshold_ms,
                    ) ==> #[trigger] out@.contains(id)) by {
                    assert(forall|id: u128|
                        #[trigger] self.sessions().dom().contains(id) && is_stale(
                            self.sessions()[id],
                            now_ms,
                            threshold_ms,
                        ) ==> out@.contains(id)) by {
                        assert forall|id: u128|
                            #[trigger] self.sessions().dom().contains(id) && is_stale(
                                self.sessions()[id],
                                now_ms,
                                threshold_ms,
                            ) implies out@.contains(id) by {
                            let j = choose|j: int|
                                0 <= j < es@.len() && (#[trigger] es@[j]).0 == id;
                            assert(table_map(self.table).contains_pair(es@[j].0, es@[j].1));
                            assert(es@[j].1 == self.sessions()[id]);
                        }
                    }
                }
            }
        }
        out
    }
}

} // verus!