//! The session bridge: the decision core of the relay. Every byte frame,
//! control frame, PTY read outcome and reaper sweep is an event; the bridge
//! maps each event to the actions the surrounding I/O code must perform and
//! to the exact change of the shared state (registry, latency tracker,
//! outstanding pings, counters).

use vstd::prelude::*;
use crate::codec::{
    decode_spec, decode_control, encode_control, encode_model, encode_metrics, metrics_bytes,
    ControlMessage, ControlModel,
};
use crate::latency::{recorded, elapsed_ms, LatencyReport, LatencyTracker, PingTable};
use crate::registry::{is_stale, SessionMeta, SessionPhase, SessionRegistry};
use crate::session::{session_id_text, uuid_text};

verus! {

/// Terminal geometry a fresh session starts with.
pub const DEFAULT_ROWS: u16 = 24;

pub const DEFAULT_COLS: u16 = 80;

/// One thing that happened on a session's connection or PTY.
pub enum RelayEvent {
    /// A binary frame arrived from the client: terminal input bytes.
    BinaryFromClient(Vec<u8>),
    /// A text frame arrived from the client: a control message, or noise.
    TextFromClient(Vec<u8>),
    /// A non-empty chunk was read from the PTY master.
    PtyOutput(Vec<u8>),
    /// The PTY master reached end of file.
    PtyEof,
    /// Reading the PTY master failed.
    PtyReadFailed,
    /// Writing the PTY master failed.
    PtyWriteFailed,
    /// The client closed the connection.
    ConnectionClosed,
    /// The connection failed.
    ConnectionFailed,
}

/// One thing the surrounding I/O code must do in response.
pub enum RelayAction {
    /// Write these bytes to the PTY master and flush.
    WritePty(Vec<u8>),
    /// Send these bytes to the client as a binary frame.
    SendBinary(Vec<u8>),
    /// Send these bytes to the client as a text frame.
    SendText(Vec<u8>),
    /// Apply this geometry to the PTY master.
    ResizePty { rows: u16, cols: u16 },
    /// Tear the session's I/O down: kill the child, release the PTY, close
    /// the connection.
    Teardown,
}

/// `m` after activity on session `id` at `now_ms`.
pub open spec fn touched(m: Map<u128, SessionMeta>, id: u128, now_ms: u64) -> Map<
    u128,
    SessionMeta,
> {
    if m.contains_key(id) {
        m.insert(id, SessionMeta { last_activity_ms: now_ms, ..m[id] })
    } else {
        m
    }
}

/// `m` after session `id` took the geometry `rows` by `cols` at `now_ms`.
pub open spec fn resized(
    m: Map<u128, SessionMeta>,
    id: u128,
    rows: u16,
    cols: u16,
    now_ms: u64,
) -> Map<u128, SessionMeta> {
    if m.contains_key(id) {
        m.insert(id, SessionMeta { rows, cols, last_activity_ms: now_ms, ..m[id] })
    } else {
        m
    }
}

/// Whole seconds elapsed from `start_ms` to `now_ms`.
pub open spec fn uptime_secs(start_ms: u64, now_ms: u64) -> u64 {
    if now_ms >= start_ms {
        (((now_ms - start_ms) as u64) / 1000) as u64
    } else {
        0
    }
}

/// The bridge state shared by all sessions of one server.
pub struct SessionBridge {
    registry: SessionRegistry,
    tracker: LatencyTracker,
    pings: PingTable,
    connections_total: u64,
    handshake_failures: u64,
    start_time_ms: u64,
}

impl SessionBridge {
    /// The live sessions; an id absent here is not a session, whatever a
    /// child process may still be doing.
    pub closed spec fn sessions(&self) -> Map<u128, SessionMeta> {
        self.registry.sessions()
    }

    /// Retained round-trip samples.
    pub closed spec fn samples(&self) -> Seq<u64> {
        self.tracker.samples()
    }

    /// Samples ever seen above the high-latency threshold.
    pub closed spec fn high_count(&self) -> u64 {
        self.tracker.high_count()
    }

    /// Outstanding pings by session id.
    pub closed spec fn pending_pings(&self) -> Map<u128, u64> {
        self.pings.pending()
    }

    /// Connections accepted so far.
    pub closed spec fn connections(&self) -> u64 {
        self.connections_total
    }

    /// Handshakes that failed before any session existed.
    pub closed spec fn failures(&self) -> u64 {
        self.handshake_failures
    }

    /// When the server started, on the same clock as every `now_ms`.
    pub closed spec fn start_time(&self) -> u64 {
        self.start_time_ms
    }

    pub closed spec fn wf(&self) -> bool {
        self.registry.wf() && self.tracker.wf() && self.pings.wf()
    }

    pub fn new(start_time_ms: u64) -> (r: SessionBridge)
        ensures
            r.wf(),
            r.sessions() == crate::registry::empty_sessions(),
            r.samples() == Seq::<u64>::empty(),
            r.high_count() == 0,
            r.pending_pings() == Map::<u128, u64>::empty(),
            r.connections() == 0,
            r.failures() == 0,
            r.start_time() == start_time_ms,
    {
        SessionBridge {
            registry: SessionRegistry::new(),
            tracker: LatencyTracker::new(),
            pings: PingTable::new(),
            connections_total: 0,
            handshake_failures: 0,
            start_time_ms,
        }
    }

    /// A connection was accepted: bump the diagnostic counter.
    pub fn connection_arrived(&mut self) -> (r: u64)
        requires
            old(self).wf(),
        ensures
            final(self).wf(),
            final(self).connections() == crate::latency::inc_saturating(old(self).connections()),
            r == final(self).connections(),
            final(self).sessions() == old(self).sessions(),
            final(self).samples() == old(self).samples(),
            final(self).high_count() == old(self).high_count(),
            final(self).pending_pings() == old(self).pending_pings(),
            final(self).failures() == old(self).failures(),
            final(self).start_time() == old(self).start_time(),
    {
        if self.connections_total < u64::MAX {
            self.connections_total = self.connections_total + 1;
        }
        self.connections_total
    }

    /// A handshake failed: count it; no session is created.
    pub fn handshake_failed(&mut self) -> (r: u64)
        requires
            old(self).wf(),
        ensures
            final(self).wf(),
            final(self).failures() == crate::latency::inc_saturating(old(self).failures()),
            r == final(self).failures(),
            final(self).sessions() == old(self).sessions(),
            final(self).samples() == old(self).samples(),
            final(self).high_count() == old(self).high_count(),
            final(self).pending_pings() == old(self).pending_pings(),
            final(self).connections() == old(self).connections(),
            final(self).start_time() == old(self).start_time(),
    {
        if self.handshake_failures < u64::MAX {
            self.handshake_failures = self.handshake_failures + 1;
        }
        self.handshake_failures
    }

    /// Admit a spawned session into the registry at the default geometry and
    /// produce the hello frame that must reach the client before any data
    /// frame. Refused (nothing changes) when the id is already in use.
    pub fn admit_session(&mut self, id: u128, now_ms: u64) -> (r: Option<Vec<u8>>)
        requires
            old(self).wf(),
        ensures
            final(self).wf(),
            r is Some <==> !old(self).sessions().contains_key(id),
            r matches Some(hello) ==> {
                &&& final(self).sessions() == old(self).sessions().insert(
                    id,
                    SessionMeta {
                        phase: SessionPhase::Created,
                        rows: DEFAULT_ROWS,
                        cols: DEFAULT_COLS,
                        created_at_ms: now_ms,
                        last_activity_ms: now_ms,
                    },
                )
                &&& hello@ == encode_model(ControlModel::Session { id: uuid_text(id) })
            },
            r is None ==> final(self).sessions() == old(self).sessions(),
            final(self).samples() == old(self).samples(),
            final(self).high_count() == old(self).high_count(),
            final(self).pending_pings() == old(self).pending_pings(),
            final(self).connections() == old(self).connections(),
            final(self).failures() == old(self).failures(),
            final(self).start_time() == old(self).start_time(),
    {
        if self.registry.register(id, DEFAULT_ROWS, DEFAULT_COLS, now_ms) {
            let text = session_id_text(id);
            Some(encode_control(&ControlMessage::Session { id: text }))
        } else {
            None
        }
    }

    /// The session's relay flows are up and bytes can move: `Created`
    /// becomes `Active`. An id that is no session is left alone.
    pub fn relay_started(&mut self, id: u128)
        requires
            old(self).wf(),
        ensures
            final(self).wf(),
            old(self).sessions().contains_key(id) ==> final(self).sessions() == old(
                self,
            ).sessions().insert(
                id,
                SessionMeta { phase: SessionPhase::Active, ..old(self).sessions()[id] },
            ),
            !old(self).sessions().contains_key(id) ==> final(self).sessions() == old(
                self,
            ).sessions(),
            final(self).samples() == old(self).samples(),
            final(self).high_count() == old(self).high_count(),
            final(self).pending_pings() == old(self).pending_pings(),
            final(self).connections() == old(self).connections(),
            final(self).failures() == old(self).failures(),
            final(self).start_time() == old(self).start_time(),
    {
        self.registry.mark_active(id);
    }

    /// Tear session `id` down: remove its registry entry and outstanding
    /// ping. Returns whether this call removed the entry, i.e. whether the
    /// caller owes the child exactly one kill. A second teardown of the same
    /// id finds nothing and changes nothing.
    pub fn teardown(&mut self, id: u128) -> (r: bool)
        requires
            old(self).wf(),
        ensures
            final(self).wf(),
            r == old(self).sessions().contains_key(id),
            final(self).sessions() == old(self).sessions().remove(id),
            final(self).pending_pings() == old(self).pending_pings().remove(id),
            final(self).samples() == old(self).samples(),
            final(self).high_count() == old(self).high_count(),
            final(self).connections() == old(self).connections(),
            final(self).failures() == old(self).failures(),
            final(self).start_time() == old(self).start_time(),
    {
        let removed = self.registry.remove_session(id);
        self.pings.forget(id);
        removed
    }

    /// Send a ping to measure the round trip: the caller sends the returned
    /// frame, and the matching pong will close the sample. Nothing is sent
    /// for an id that is not a session.
    pub fn start_ping(&mut self, id: u128, now_ms: u64) -> (r: Vec<RelayAction>)
        requires
            old(self).wf(),
        ensures
            final(self).wf(),
            old(self).sessions().contains_key(id) ==> {
                &&& r@.len() == 1
                &&& (r@[0] matches RelayAction::SendText(f) && f@ == encode_model(
                    ControlModel::Ping,
                ))
                &&& final(self).pending_pings() == old(self).pending_pings().insert(id, now_ms)
            },
            !old(self).sessions().contains_key(id) ==> r@.len() == 0 && final(self).pending_pings()
                == old(self).pending_pings(),
            final(self).sessions() == old(self).sessions(),
            final(self).samples() == old(self).samples(),
            final(self).high_count() == old(self).high_count(),
            final(self).connections() == old(self).connections(),
            final(self).failures() == old(self).failures(),
            final(self).start_time() == old(self).start_time(),
    {
        let mut acts: Vec<RelayAction> = Vec::new();
        if self.registry.lookup(id).is_some() {
            self.pings.record_ping(id, now_ms);
            acts.push(RelayAction::SendText(encode_control(&ControlMessage::Ping)));
        }
        acts
    }

    /// The heart of the relay: what one event on session `id` does. Events on
    /// an id that is not a session do nothing, so a relay flow that outlives
    /// its session is harmless and teardown stays idempotent.
    pub fn handle_event(&mut self, id: u128, ev: RelayEvent, now_ms: u64) -> (r: Vec<RelayAction>)
        requires
            old(self).wf(),
        ensures
            final(self).wf(),
            final(self).connections() == old(self).connections(),
            final(self).failures() == old(self).failures(),
            final(self).start_time() == old(self).start_time(),
            !old(self).sessions().contains_key(id) ==> {
                &&& r@.len() == 0
                &&& final(self).sessions() == old(self).sessions()
                &&& final(self).samples() == old(self).samples()
                &&& final(self).high_count() == old(self).high_count()
                &&& final(self).pending_pings() == old(self).pending_pings()
            },
            old(self).sessions().contains_key(id) ==> match ev {
                RelayEvent::BinaryFromClient(data) => {
                    &&& r@.len() == 1
                    &&& (r@[0] matches RelayAction::WritePty(d) && d@ == data@)
                    &&& final(self).sessions() == touched(old(self).sessions(), id, now_ms)
                    &&& final(self).samples() == old(self).samples()
                    &&& final(self).high_count() == old(self).high_count()
                    &&& final(self).pending_pings() == old(self).pending_pings()
                },
                RelayEvent::PtyOutput(data) => {
                    &&& r@.len() == 1
                    &&& (r@[0] matches RelayAction::SendBinary(d) && d@ == data@)
                    &&& final(self).sessions() == touched(old(self).sessions(), id, now_ms)
                    &&& final(self).samples() == old(self).samples()
                    &&& final(self).high_count() == old(self).high_count()
                    &&& final(self).pending_pings() == old(self).pending_pings()
                },
                RelayEvent::TextFromClient(t) => match decode_spec(t@) {
                    None => {
                        &&& r@.len() == 0
                        &&& final(self).sessions() == old(self).sessions()
                        &&& final(self).samples() == old(self).samples()
                        &&& final(self).high_count() == old(self).high_count()
                        &&& final(self).pending_pings() == old(self).pending_pings()
                    },
                    Some(c) => match c {
                        ControlModel::Resize { rows, cols } => {
                            &&& r@.len() == 1
                            &&& (r@[0] matches RelayAction::ResizePty { rows: r2, cols: c2 }
                                && r2 == rows && c2 == cols)
                            &&& final(self).sessions() == resized(
                                old(self).sessions(),
                                id,
                                rows,
                                cols,
                                now_ms,
                            )
                            &&& final(self).samples() == old(self).samples()
                            &&& final(self).high_count() == old(self).high_count()
                            &&& final(self).pending_pings() == old(self).pending_pings()
                        },
                        ControlModel::Ping => {
                            &&& r@.len() == 1
                            &&& (r@[0] matches RelayAction::SendText(f) && f@ == encode_model(
                                ControlModel::Pong,
                            ))
                            &&& final(self).sessions() == touched(old(self).sessions(), id, now_ms)
                            &&& final(self).samples() == old(self).samples()
                            &&& final(self).high_count() == old(self).high_count()
                            &&& final(self).pending_pings() == old(self).pending_pings()
                        },
                        ControlModel::Pong => {
                            &&& r@.len() == 0
                            &&& final(self).sessions() == touched(old(self).sessions(), id, now_ms)
                            &&& final(self).pending_pings() == old(self).pending_pings().remove(id)
                            &&& old(self).pending_pings().contains_key(id) ==> recorded(
                                old(self).samples(),
                                old(self).high_count(),
                                final(self).samples(),
                                final(self).high_count(),
                                elapsed_ms(old(self).pending_pings()[id], now_ms),
                            )
                            &&& !old(self).pending_pings().contains_key(id) ==> final(self).samples()
                                == old(self).samples() && final(self).high_count() == old(
                                self,
                            ).high_count()
                        },
                        ControlModel::Metrics => {
                            &&& r@.len() == 1
                            &&& (r@[0] matches RelayAction::SendText(f) && f@ == metrics_bytes(
                                uptime_secs(old(self).start_time(), now_ms),
                                old(self).sessions().dom().len() as u64,
                                old(self).connections(),
                            ))
                            &&& final(self).sessions() == touched(old(self).sessions(), id, now_ms)
                            &&& final(self).samples() == old(self).samples()
                            &&& final(self).high_count() == old(self).high_count()
                            &&& final(self).pending_pings() == old(self).pending_pings()
                        },
                        ControlModel::Session { .. } => {
                            &&& r@.len() == 0
                            &&& final(self).sessions() == touched(old(self).sessions(), id, now_ms)
                            &&& final(self).samples() == old(self).samples()
                            &&& final(self).high_count() == old(self).high_count()
                            &&& final(self).pending_pings() == old(self).pending_pings()
                        },
                        ControlModel::Error { .. } => {
                            &&& r@.len() == 0
                            &&& final(self).sessions() == touched(old(self).sessions(), id, now_ms)
                            &&& final(self).samples() == old(self).samples()
                            &&& final(self).high_count() == old(self).high_count()
                            &&& final(self).pending_pings() == old(self).pending_pings()
                        },
                    },
                },
                RelayEvent::PtyEof | RelayEvent::PtyReadFailed | RelayEvent::PtyWriteFailed
                    | RelayEvent::ConnectionClosed | RelayEvent::ConnectionFailed => {
                    &&& r@.len() == 1
                    &&& r@[0] is Teardown
                    &&& final(self).sessions() == old(self).sessions().remove(id)
                    &&& final(self).pending_pings() == old(self).pending_pings().remove(id)
                    &&& final(self).samples() == old(self).samples()
                    &&& final(self).high_count() == old(self).high_count()
                },
            },
    {
        let mut acts: Vec<RelayAction> = Vec::new();
        if self.registry.lookup(id).is_none() {
            return acts;
        }
        match ev {
            RelayEvent::BinaryFromClient(data) => {
                self.registry.touch(id, now_ms);
                acts.push(RelayAction::WritePty(data));
            },
            RelayEvent::PtyOutput(data) => {
                self.registry.touch(id, now_ms);
                acts.push(RelayAction::SendBinary(data));
            },
            RelayEvent::TextFromClient(t) => {
                match decode_control(t.as_slice()) {
                    None => (),
                    Some(msg) => match msg {
                        ControlMessage::Resize { rows, cols } => {
                            self.registry.set_geometry(id, rows, cols, now_ms);
                            acts.push(RelayAction::ResizePty { rows, cols });
                        },
                        ControlMessage::Ping => {
                            self.registry.touch(id, now_ms);
                            acts.push(
                                RelayAction::SendText(encode_control(&ControlMessage::Pong)),
                            );
                        },
                        ControlMessage::Pong => {
                            self.registry.touch(id, now_ms);
                            match self.pings.observe_pong(id, now_ms) {
                                Some(ms) => self.tracker.record(ms),
                                None => (),
                            }
                        },
                        ControlMessage::Metrics => {
                            let active = self.registry.active_count();
                            let up = if now_ms >= self.start_time_ms {
                                (now_ms - self.start_time_ms) / 1000
                            } else {
                                0
                            };
                            let frame = encode_metrics(up, active as u64, self.connections_total);
                            self.registry.touch(id, now_ms);
                            acts.push(RelayAction::SendText(frame));
                        },
                        ControlMessage::Session { .. } => {
                            self.registry.touch(id, now_ms);
                        },
                        ControlMessage::Error { .. } => {
                            self.registry.touch(id, now_ms);
                        },
                    },
                }
            },
            RelayEvent::PtyEof | RelayEvent::PtyReadFailed | RelayEvent::PtyWriteFailed
                | RelayEvent::ConnectionClosed | RelayEvent::ConnectionFailed => {
                self.teardown(id);
                acts.push(RelayAction::Teardown);
            },
        }
        acts
    }

    /// One reaper sweep: every session stale at `now_ms` is torn down through
    /// the same path as any other teardown; fresh sessions are untouched. The
    /// returned ids are exactly the sessions that were torn down, each owing
    /// one child kill.
    pub fn reap(&mut self, now_ms: u64, threshold_ms: u64) -> (r: Vec<u128>)
        requires
            old(self).wf(),
        ensures
            final(self).wf(),
            forall|id: u128|
                #[trigger] r@.contains(id) <==> old(self).sessions().contains_key(id) && is_stale(
                    old(self).sessions()[id],
                    now_ms,
                    threshold_ms,
                ),
            forall|i: int, j: int| 0 <= i < j < r@.len() ==> r@[i] != r@[j],
            forall|id: u128|
                #[trigger] final(self).sessions().contains_key(id) <==> old(
                    self,
                ).sessions().contains_key(id) && !r@.contains(id),
            forall|id: u128|
                #[trigger] final(self).sessions().contains_key(id) ==> final(self).sessions()[id]
                    == old(self).sessions()[id],
            forall|id: u128|
                #[trigger] final(self).pending_pings().contains_key(id) <==> old(
                    self,
                ).pending_pings().contains_key(id) && !r@.contains(id),
            forall|id: u128|
                #[trigger] final(self).pending_pings().contains_key(id)
                    ==> final(self).pending_pings()[id] == old(self).pending_pings()[id],
            final(self).samples() == old(self).samples(),
            final(self).high_count() == old(self).high_count(),
            final(self).connections() == old(self).connections(),
            final(self).failures() == old(self).failures(),
            final(self).start_time() == old(self).start_time(),
    {
        let stale = self.registry.stale_ids(now_ms, threshold_ms);
        let n = stale.len();
        let mut i: usize = 0;
        while i < n
            invariant
                0 <= i <= n,
                n == stale@.len(),
                self.wf(),
                forall|id: u128|
                    #[trigger] stale@.contains(id) <==> old(self).sessions().contains_key(id)
                        && is_stale(old(self).sessions()[id], now_ms, threshold_ms),
                forall|i2: int, j2: int| 0 <= i2 < j2 < stale@.len() ==> stale@[i2] != stale@[j2],
                forall|id: u128|
                    #[trigger] self.sessions().contains_key(id) <==> old(
                        self,
                    ).sessions().contains_key(id) && !stale@.take(i as int).contains(id),
                forall|id: u128|
                    #[trigger] self.sessions().contains_key(id) ==> self.sessions()[id] == old(
                        self,
                    ).sessions()[id],
                forall|id: u128|
                    #[trigger] self.pending_pings().contains_key(id) <==> old(
                        self,
                    ).pending_pings().contains_key(id) && !stale@.take(i as int).contains(id),
                forall|id: u128|
                    #[trigger] self.pending_pings().contains_key(id) ==> self.pending_pings()[id]
                        == old(self).pending_pings()[id],
                self.samples() == old(self).samples(),
                self.high_count() == old(self).high_count(),
                self.connections() == old(self).connections(),
                self.failures() == old(self).failures(),
                self.start_time() == old(self).start_time(),
            decreases n - i,
        {
            let ghost pre = *self;
            self.teardown(stale[i]);
            proof {
                assert(stale@.take(i as int + 1) =~= stale@.take(i as int).push(
                    stale@[i as int],
                ));
                assert(forall|id: u128|
                    #[trigger] stale@.take(i as int + 1).contains(id) <==> stale@.take(
                        i as int,
                    ).contains(id) || id == stale@[i as int]) by {
                    let t1 = stale@.take(i as int + 1);
                    let t0 = stale@.take(i as int);
                    assert(forall|id: u128| #[trigger]
                        t1.contains(id) ==> t0.contains(id) || id == stale@[i as int]) by {
                        assert(forall|k: int|
                            0 <= k < t1.len() ==> t1[k] == if k < t0.len() {
                                t0[k]
                            } else {
                                stale@[i as int]
                            });
                    }
                    assert(t1[t1.len() - 1] == stale@[i as int]);
                    assert(forall|k: int| 0 <= k < t0.len() ==> t1[k] == t0[k]);
                }
            }
            i = i + 1;
        }
        proof {
            assert(stale@.take(n as int) =~= stale@);
        }
        stale
    }

    /// Metadata of a session, if it is live.
    pub fn session_meta(&self, id: u128) -> (r: Option<SessionMeta>)
        ensures
            r is Some <==> self.sessions().contains_key(id),
            r matches Some(m) ==> m == self.sessions()[id],
    {
        self.registry.lookup(id)
    }

    /// How many sessions are live.
    pub fn active_sessions(&self) -> (r: usize)
        requires
            self.wf(),
        ensures
            r as nat == self.sessions().dom().len(),
    {
        self.registry.active_count()
    }

    /// The latency aggregate over the retained samples, if any were recorded.
    pub fn latency_report(&self) -> (r: Option<LatencyReport>)
        requires
            self.wf(),
        ensures
            r is Some <==> self.samples().len() > 0,
            r matches Some(rep) ==> {
                &&& rep.min_ms == crate::latency::seq_min(self.samples())
                &&& rep.max_ms == crate::latency::seq_max(self.samples())
                &&& rep.avg_ms == crate::latency::seq_sum(self.samples()) / (
                self.samples().len() as int)
                &&& rep.high_latency_count == self.high_count()
                &&& rep.sample_count == self.samples().len()
            },
    {
        self.tracker.report()
    }
}

/// Teardown is idempotent on the registry: once an id has been removed from
/// the session map it is gone, and removing it again changes nothing, so no
/// second kill and no second release can be owed for the same session.
pub proof fn lemma_teardown_idempotent(sessions: Map<u128, SessionMeta>, id: u128)
    ensures
        !sessions.remove(id).contains_key(id),
        sessions.remove(id).remove(id) == sessions.remove(id),
{
    assert(sessions.remove(id).remove(id) =~= sessions.remove(id));
}

/// Sessions are isolated: tearing one down leaves every other session's
/// entry, geometry and timestamps exactly as they were.
pub proof fn lemma_teardown_isolates(sessions: Map<u128, SessionMeta>, id: u128, other: u128)
    requires
        other != id,
    ensures
        sessions.remove(id).contains_key(other) == sessions.contains_key(other),
        sessions.contains_key(other) ==> sessions.remove(id)[other] == sessions[other],
{
}

} // verus!