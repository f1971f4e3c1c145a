//! The orchestration hub: the session registry with one bridge per session and
//! the backend supervisor, driven by the control requests of the local socket
//! protocol. Each request is one variant, handled exhaustively.
use vstd::prelude::*;

use crate::bridge::{Bridge, BridgeView, has_link, without};
use crate::session::{
    Registry,
    RegistryView,
    Session,
    SessionState,
    has_session,
    is_active,
    lemma_kill_idempotent,
    lemma_session_index,
    session_index,
};
use crate::supervisor::{BackendState, Supervisor, SupervisorAction, SupervisorEvent};

verus! {

#[derive(Clone, Copy, PartialEq, Eq, Debug, Structural)]
pub enum ErrorKind {
    PortExhausted,
    BackendUnhealthy,
    BackendFatal,
    SessionNotFound,
    SpawnFailed,
    ProtocolError,
    LinkIOError,
}

/// A control request from a socket client.
#[derive(Debug, PartialEq, Eq)]
pub enum Request {
    /// A new session of the given size running `program` with `args` in
    /// directory `cwd`. An empty program is the user's shell, an empty `cwd`
    /// the server's own directory.
    Spawn { rows: u16, cols: u16, program: Vec<u8>, args: Vec<Vec<u8>>, cwd: Vec<u8> },
    Attach { session: u64, link: u64 },
    Detach { session: u64, link: u64 },
    Resize { session: u64, rows: u16, cols: u16 },
    /// Bytes for the terminal; `seq` numbers the link's messages for diagnostics.
    Input { session: u64, link: u64, seq: u32, data: Vec<u8> },
    Kill { session: u64 },
    /// Link `link` asks for the backend's status now and for every change.
    StatusSubscribe { link: u64 },
}

/// A request as a mathematical value.
pub ghost enum RequestView {
    Spawn { rows: u16, cols: u16, program: Seq<u8>, args: Seq<Seq<u8>>, cwd: Seq<u8> },
    Attach { session: u64, link: u64 },
    Detach { session: u64, link: u64 },
    Resize { session: u64, rows: u16, cols: u16 },
    Input { session: u64, link: u64, seq: u32, data: Seq<u8> },
    Kill { session: u64 },
    /// Link `link` asks for the backend's status now and for every change.
    StatusSubscribe { link: u64 },
}

impl Request {
    pub open spec fn view(&self) -> RequestView {
        match *self {
            Request::Spawn { rows, cols, program, args, cwd } => RequestView::Spawn {
                rows,
                cols,
                program: program@,
                args: args@.map_values(|a: Vec<u8>| a@),
                cwd: cwd@,
            },
            Request::Attach { session, link } => RequestView::Attach { session, link },
            Request::Detach { session, link } => RequestView::Detach { session, link },
            Request::Resize { session, rows, cols } => RequestView::Resize { session, rows, cols },
            Request::Input { session, link, seq, data } => RequestView::Input {
                session,
                link,
                seq,
                data: data@,
            },
            Request::Kill { session } => RequestView::Kill { session },
            Request::StatusSubscribe { link } => RequestView::StatusSubscribe { link },
        }
    }
}

#[derive(Clone, Copy, PartialEq, Eq, Debug, Structural)]
pub enum Reply {
    SpawnResult(u64),
    Done,
    Error(ErrorKind),
    /// The backend's lifecycle state and restart count.
    StatusEvent(BackendState, u32),
}

/// The abstract state of a hub: the registry, and the bridge of each session
/// at the session's position.
pub ghost struct HubView {
    pub registry: RegistryView,
    pub bridges: Seq<BridgeView>,
    pub cap: nat,
    /// The links that are sent every change of the backend's status.
    pub subscribers: Seq<u64>,
}

pub open spec fn fresh_bridge(cap: nat) -> BridgeView {
    BridgeView {
        links: Seq::empty(),
        history: Seq::empty(),
        cap,
        to_pty: Seq::empty(),
        closed: false,
        parted: Seq::empty(),
    }
}

pub open spec fn reply_of(r: Result<(), ErrorKind>) -> Reply {
    match r {
        Ok(()) => Reply::Done,
        Err(e) => Reply::Error(e),
    }
}

impl HubView {
    pub open spec fn wf(self) -> bool {
        &&& self.registry.wf()
        &&& self.bridges.len() == self.registry.sessions.len()
        &&& forall|i: int| 0 <= i < self.bridges.len() ==> (#[trigger] self.bridges[i]).wf()
            && self.bridges[i].cap == self.cap
    }

    pub open spec fn pos(self, s: u64) -> int {
        session_index(self.registry.sessions, s)
    }

    pub open spec fn held(self, s: u64) -> bool {
        has_session(self.registry.sessions, s)
    }

    pub open spec fn with_bridge(self, s: u64, b: BridgeView) -> HubView {
        HubView { bridges: self.bridges.update(self.pos(s), b), ..self }
    }

    pub open spec fn attach_result(self, s: u64, l: u64) -> Result<(), ErrorKind> {
        if !self.held(s) || self.bridges[self.pos(s)].closed {
            Err(ErrorKind::SessionNotFound)
        } else if has_link(self.bridges[self.pos(s)].links, l) {
            Err(ErrorKind::ProtocolError)
        } else {
            Ok(())
        }
    }

    pub open spec fn detach_result(self, s: u64, l: u64) -> Result<(), ErrorKind> {
        if !self.held(s) {
            Err(ErrorKind::SessionNotFound)
        } else if !has_link(self.bridges[self.pos(s)].links, l) {
            Err(ErrorKind::ProtocolError)
        } else {
            Ok(())
        }
    }

    pub open spec fn input_result(self, s: u64, l: u64) -> Result<(), ErrorKind> {
        if !self.held(s) || self.bridges[self.pos(s)].closed {
            Err(ErrorKind::SessionNotFound)
        } else if !has_link(self.bridges[self.pos(s)].links, l) {
            Err(ErrorKind::ProtocolError)
        } else {
            Ok(())
        }
    }

    pub open spec fn spawn_result(self) -> Result<u64, ErrorKind> {
        if self.registry.next_id < u64::MAX {
            Ok(self.registry.next_id)
        } else {
            Err(ErrorKind::SpawnFailed)
        }
    }

    pub open spec fn after_spawn(self, rows: u16, cols: u16, now: u64) -> HubView {
        if self.registry.next_id < u64::MAX {
            HubView {
                registry: RegistryView {
                    sessions: self.registry.sessions.push(
                        Session {
                            id: self.registry.next_id,
                            rows,
                            cols,
                            created_at: now,
                            state: SessionState::Active,
                            kill_requested: false,
                        },
                    ),
                    next_id: (self.registry.next_id + 1) as u64,
                },
                bridges: self.bridges.push(fresh_bridge(self.cap)),
                ..self
            }
        } else {
            self
        }
    }

    pub open spec fn after_attach(self, s: u64, l: u64) -> HubView {
        if self.attach_result(s, l) is Ok {
            self.with_bridge(s, self.bridges[self.pos(s)].attach(l))
        } else {
            self
        }
    }

    pub open spec fn after_detach(self, s: u64, l: u64) -> HubView {
        if self.detach_result(s, l) is Ok {
            self.with_bridge(s, self.bridges[self.pos(s)].detach(l))
        } else {
            self
        }
    }

    pub open spec fn after_input(self, s: u64, l: u64, data: Seq<u8>) -> HubView {
        if self.input_result(s, l) is Ok {
            self.with_bridge(s, self.bridges[self.pos(s)].input(l, data))
        } else {
            self
        }
    }

    pub open spec fn after_output(self, s: u64, data: Seq<u8>) -> HubView {
        if self.held(s) {
            self.with_bridge(s, self.bridges[self.pos(s)].output(data))
        } else {
            self
        }
    }

    /// A resize needs a live session.
    pub open spec fn resize_result(self, s: u64) -> Result<(), ErrorKind> {
        if is_active(self.registry.sessions, s) {
            Ok(())
        } else {
            Err(ErrorKind::SessionNotFound)
        }
    }

    pub open spec fn after_resize(self, s: u64, rows: u16, cols: u16) -> HubView {
        if is_active(self.registry.sessions, s) {
            HubView {
                registry: RegistryView {
                    sessions: self.registry.sessions.update(
                        self.pos(s),
                        Session { rows, cols, ..self.registry.sessions[self.pos(s)] },
                    ),
                    ..self.registry
                },
                ..self
            }
        } else {
            self
        }
    }

    /// A kill is an error only for an unknown session; on one that has ended
    /// it changes nothing.
    pub open spec fn kill_result(self, s: u64) -> Result<(), ErrorKind> {
        if self.held(s) {
            Ok(())
        } else {
            Err(ErrorKind::SessionNotFound)
        }
    }

    /// What request `req` does, as the reply and the next state.
    pub open spec fn handle(self, req: &Request, now: u64, backend: Supervisor) -> (Reply, HubView) {
        match *req {
            Request::Spawn { rows, cols, .. } => (
                match self.spawn_result() {
                    Ok(id) => Reply::SpawnResult(id),
                    Err(e) => Reply::Error(e),
                },
                self.after_spawn(rows, cols, now),
            ),
            Request::Attach { session, link } => (
                reply_of(self.attach_result(session, link)),
                self.after_attach(session, link),
            ),
            Request::Detach { session, link } => (
                reply_of(self.detach_result(session, link)),
                self.after_detach(session, link),
            ),
            Request::Resize { session, rows, cols } => (
                reply_of(self.resize_result(session)),
                self.after_resize(session, rows, cols),
            ),
            Request::Input { session, link, data, .. } => (
                reply_of(self.input_result(session, link)),
                self.after_input(session, link, data@),
            ),
            Request::Kill { session } => (
                reply_of(self.kill_result(session)),
                self.after_kill(session),
            ),
            Request::StatusSubscribe { link } => (
                Reply::StatusEvent(backend.state, backend.restart_count),
                self.subscribe(link),
            ),
        }
    }

    pub open spec fn subscribe(self, link: u64) -> HubView {
        if self.subscribers.contains(link) {
            self
        } else {
            HubView { subscribers: self.subscribers.push(link), ..self }
        }
    }

    /// A kill request is recorded; the session stays live until its child's
    /// exit is observed.
    pub open spec fn after_kill(self, s: u64) -> HubView {
        HubView { registry: self.registry.kill(s), ..self }
    }

    /// `Ok(true)` when the termination signal is now owed to the child.
    pub open spec fn kill_signal(self, s: u64) -> Result<bool, ErrorKind> {
        if self.held(s) {
            Ok(self.registry.signal_owed(s))
        } else {
            Err(ErrorKind::SessionNotFound)
        }
    }

    /// The child of live session `s` was seen to exit: the session ends
    /// (`Killed` if a kill was requested, else `Exited`) and its bridge closes,
    /// handing every link still owed one the end-of-stream marker.
    pub open spec fn end_session(self, s: u64) -> HubView {
        if is_active(self.registry.sessions, s) {
            HubView {
                registry: self.registry.exit(s),
                bridges: self.bridges.update(self.pos(s), self.bridges[self.pos(s)].close()),
                ..self
            }
        } else {
            self
        }
    }
}

/// A second kill of a session changes nothing and is no error; once the
/// child's exit is observed the session is `Killed` and its bridge closed, and
/// observing the exit again changes nothing.
pub proof fn lemma_hub_kill_idempotent(h: HubView, s: u64)
    requires
        h.wf(),
        h.held(s),
    ensures
        h.after_kill(s).after_kill(s) == h.after_kill(s),
        h.after_kill(s).kill_signal(s) == Ok::<bool, ErrorKind>(false),
        h.kill_result(s) == Ok::<(), ErrorKind>(()),
        is_active(h.registry.sessions, s) ==> h.after_kill(s).end_session(s).registry.sessions[h.pos(
            s,
        )].state == SessionState::Killed && h.after_kill(s).end_session(s).bridges[h.pos(s)]
            == h.bridges[h.pos(s)].close(),
        h.after_kill(s).end_session(s).end_session(s) == h.after_kill(s).end_session(s),
{
    lemma_kill_idempotent(h.registry, s);
    let k = h.pos(s);
    let q = h.after_kill(s);
    assert(q.registry.sessions[k].id == s);
    assert(q.registry.wf());
    lemma_session_index(q.registry.sessions, q.registry.next_id, k, s);
    let e = q.end_session(s);
    assert(e.registry.sessions[k].id == s);
    assert(e.registry.wf());
    lemma_session_index(e.registry.sessions, e.registry.next_id, k, s);
}

/// The hub after the children of `ids` were each seen to have exited, in order.
pub open spec fn exit_all(h: HubView, ids: Seq<u64>) -> HubView
    decreases ids.len(),
{
    if ids.len() == 0 {
        h
    } else {
        exit_all(h, ids.drop_last()).end_session(ids.last())
    }
}

struct Entry {
    id: u64,
    bridge: Bridge,
}

/// The registry, its bridges and the backend supervisor.
pub struct Hub {
    registry: Registry,
    entries: Vec<Entry>,
    cap: usize,
    supervisor: Supervisor,
    subscribers: Vec<u64>,
}

impl Hub {
    pub closed spec fn view(&self) -> HubView {
        HubView {
            registry: self.registry@,
            bridges: self.entries@.map_values(|e: Entry| e.bridge@),
            cap: self.cap as nat,
            subscribers: self.subscribers@,
        }
    }

    pub closed spec fn wf(&self) -> bool {
        &&& self@.wf()
        &&& self.supervisor.wf()
        &&& forall|i: int| 0 <= i < self.entries@.len() ==> (#[trigger] self.entries@[i]).bridge.wf()
            && self.entries@[i].id == self.registry@.sessions[i].id
    }

    pub closed spec fn backend(&self) -> Supervisor {
        self.supervisor
    }

    /// A hub with no sessions whose bridges keep `history_cap` bytes each.
    pub fn new(history_cap: usize, supervisor: Supervisor) -> (h: Hub)
        requires
            supervisor.wf(),
        ensures
            h.wf(),
            h@.registry.sessions == Seq::<Session>::empty(),
            h@.registry.next_id == 1,
            h@.bridges == Seq::<BridgeView>::empty(),
            h@.cap == history_cap,
            h@.subscribers == Seq::<u64>::empty(),
            h.backend() == supervisor,
    {
        let h = Hub {
            registry: Registry::new(),
            entries: Vec::new(),
            cap: history_cap,
            supervisor,
            subscribers: Vec::new(),
        };
        assert(h@.bridges =~= Seq::<BridgeView>::empty());
        h
    }

    /// The backend's lifecycle state and restart count.
    pub fn status(&self) -> (r: Reply)
        ensures
            r == Reply::StatusEvent(self.backend().state, self.backend().restart_count),
    {
        Reply::StatusEvent(self.supervisor.state, self.supervisor.restart_count)
    }

    /// The error that a request needing the backend meets now: `BackendFatal`
    /// once the restart budget is spent, `BackendUnhealthy` while a failure is
    /// being recovered from.
    pub fn backend_error(&self) -> (r: Option<ErrorKind>)
        ensures
            r == (if self.backend().state == BackendState::Stopped && self.backend().fatal {
                Some(ErrorKind::BackendFatal)
            } else if self.backend().state == BackendState::Unhealthy || self.backend().state
                == BackendState::Restarting {
                Some(ErrorKind::BackendUnhealthy)
            } else {
                None
            }),
    {
        match self.supervisor.state {
            BackendState::Stopped => {
                if self.supervisor.fatal {
                    Some(ErrorKind::BackendFatal)
                } else {
                    None
                }
            },
            BackendState::Unhealthy | BackendState::Restarting => Some(ErrorKind::BackendUnhealthy),
            _ => None,
        }
    }

    /// Records a new session, with a fresh bridge, for a child the caller has
    /// spawned. Fails with `SpawnFailed` only once every id has been used.
    pub fn spawn(&mut self, rows: u16, cols: u16, now: u64) -> (r: Result<u64, ErrorKind>)
        requires
            old(self).wf(),
        ensures
            final(self).wf(),
            final(self).backend() == old(self).backend(),
            r == old(self)@.spawn_result(),
            final(self)@ == old(self)@.after_spawn(rows, cols, now),
    {
        match self.registry.spawn(rows, cols, now) {
            Ok(id) => {
                let bridge = Bridge::new(self.cap);
                assert(bridge@ == fresh_bridge(self.cap as nat));
                self.entries.push(Entry { id, bridge });
                proof {
                    assert(self@.bridges =~= old(self)@.bridges.push(fresh_bridge(self.cap as nat)));
                    assert forall|i: int| 0 <= i < self.entries@.len() implies (
                    #[trigger] self.entries@[i]).bridge.wf() && self.entries@[i].id
                        == self.registry@.sessions[i].id by {
                        if i < old(self).entries@.len() {
                            assert(self.entries@[i] == old(self).entries@[i]);
                        }
                    }
                }
                Ok(id)
            },
            Err(_) => Err(ErrorKind::SpawnFailed),
        }
    }

    proof fn lemma_entry(&self, i: int)
        requires
            self.wf(),
            0 <= i < self.entries@.len(),
        ensures
            self.entries@[i].bridge.wf(),
            self@.bridges[i] == self.entries@[i].bridge@,
            self@.bridges[i].wf(),
            self@.bridges[i].cap == self@.cap,
    {
        assert(self@.bridges[i].wf());
    }

    /// Attaches link `l` to session `s`, handing it the session's recent output.
    pub fn attach(&mut self, s: u64, l: u64) -> (r: Result<(), ErrorKind>)
        requires
            old(self).wf(),
        ensures
            final(self).wf(),
            final(self).backend() == old(self).backend(),
            r == old(self)@.attach_result(s, l),
            final(self)@ == old(self)@.after_attach(s, l),
    {
        match self.registry.position(s) {
            Some(i) => {
                proof {
                    self.lemma_entry(i as int);
                }
                if self.entries[i].bridge.is_closed() {
                    return Err(ErrorKind::SessionNotFound);
                }
                if self.entries[i].bridge.is_attached(l) {
                    return Err(ErrorKind::ProtocolError);
                }
                let ghost before = self.entries@;
                self.entries[i].bridge.attach(l);
                proof {
                    self.lemma_update(old(self), before, i as int);
                }
                Ok(())
            },
            None => Err(ErrorKind::SessionNotFound),
        }
    }

    /// Detaches link `l` from session `s`; the session keeps running and the
    /// link is still owed the end-of-stream marker while its connection lasts.
    pub fn detach(&mut self, s: u64, l: u64) -> (r: Result<(), ErrorKind>)
        requires
            old(self).wf(),
        ensures
            final(self).wf(),
            final(self).backend() == old(self).backend(),
            r == old(self)@.detach_result(s, l),
            final(self)@ == old(self)@.after_detach(s, l),
    {
        match self.registry.position(s) {
            Some(i) => {
                proof {
                    self.lemma_entry(i as int);
                }
                if !self.entries[i].bridge.is_attached(l) {
                    return Err(ErrorKind::ProtocolError);
                }
                let ghost before = self.entries@;
                self.entries[i].bridge.detach(l);
                proof {
                    self.lemma_update(old(self), before, i as int);
                }
                Ok(())
            },
            None => Err(ErrorKind::SessionNotFound),
        }
    }

    /// The connection of link `l` closed: session `s` owes it nothing more.
    /// Returns whether the session is held.
    pub fn disconnect(&mut self, s: u64, l: u64) -> (r: bool)
        requires
            old(self).wf(),
        ensures
            final(self).wf(),
            final(self).backend() == old(self).backend(),
            r == old(self)@.held(s),
            r ==> final(self)@ == old(self)@.with_bridge(
                s,
                old(self)@.bridges[old(self)@.pos(s)].disconnect(l),
            ),
            !r ==> final(self)@ == old(self)@,
    {
        match self.registry.position(s) {
            Some(i) => {
                proof {
                    self.lemma_entry(i as int);
                }
                let ghost before = self.entries@;
                self.entries[i].bridge.disconnect(l);
                proof {
                    self.lemma_update(old(self), before, i as int);
                }
                true
            },
            None => false,
        }
    }

    /// A well-formed hub has a well-formed model.
    pub proof fn lemma_wf(&self)
        requires
            self.wf(),
        ensures
            self@.wf(),
    {
    }

    /// Input from link `l` for session `s`'s terminal.
    pub fn input(&mut self, s: u64, l: u64, data: &[u8]) -> (r: Result<(), ErrorKind>)
        requires
            old(self).wf(),
        ensures
            final(self).wf(),
            final(self).backend() == old(self).backend(),
            r == old(self)@.input_result(s, l),
            final(self)@ == old(self)@.after_input(s, l, data@),
    {
        match self.registry.position(s) {
            Some(i) => {
                proof {
                    self.lemma_entry(i as int);
                }
                if self.entries[i].bridge.is_closed() {
                    return Err(ErrorKind::SessionNotFound);
                }
                if !self.entries[i].bridge.is_attached(l) {
                    return Err(ErrorKind::ProtocolError);
                }
                let ghost before = self.entries@;
                self.entries[i].bridge.input(l, data);
                proof {
                    self.lemma_update(old(self), before, i as int);
                }
                Ok(())
            },
            None => Err(ErrorKind::SessionNotFound),
        }
    }

    /// Output read from session `s`'s terminal, for its links and history.
    /// Returns whether the session is held.
    pub fn output(&mut self, s: u64, data: &[u8]) -> (r: bool)
        requires
            old(self).wf(),
        ensures
            final(self).wf(),
            final(self).backend() == old(self).backend(),
            r == old(self)@.held(s),
            final(self)@ == old(self)@.after_output(s, data@),
    {
        match self.registry.position(s) {
            Some(i) => {
                proof {
                    self.lemma_entry(i as int);
                }
                let ghost before = self.entries@;
                self.entries[i].bridge.output(data);
                proof {
                    self.lemma_update(old(self), before, i as int);
                }
                true
            },
            None => false,
        }
    }

    /// Records a new size for live session `s`.
    pub fn resize(&mut self, s: u64, rows: u16, cols: u16) -> (r: Result<(), ErrorKind>)
        requires
            old(self).wf(),
        ensures
            final(self).wf(),
            final(self).backend() == old(self).backend(),
            r == old(self)@.resize_result(s),
            final(self)@ == old(self)@.after_resize(s, rows, cols),
    {
        let r = self.registry.resize(s, rows, cols);
        proof {
            assert(self@.bridges == old(self)@.bridges);
            assert forall|i: int| 0 <= i < self.entries@.len() implies (
            #[trigger] self.entries@[i]).bridge.wf() && self.entries@[i].id
                == self.registry@.sessions[i].id by {
                assert(old(self).entries@[i].id == old(self).registry@.sessions[i].id);
            }
        }
        match r {
            Ok(()) => Ok(()),
            Err(_) => Err(ErrorKind::SessionNotFound),
        }
    }

    /// Session `s`'s child was seen to exit: the session ends, as `Killed` if
    /// a kill was requested and as `Exited` otherwise, and every link still
    /// owed one gets the end-of-stream marker.
    pub fn child_exited(&mut self, s: u64) -> (r: Result<(), ErrorKind>)
        requires
            old(self).wf(),
        ensures
            final(self).wf(),
            final(self).backend() == old(self).backend(),
            r == old(self)@.kill_result(s),
            final(self)@ == old(self)@.end_session(s),
    {
        match self.registry.position(s) {
            Some(i) => {
                proof {
                    self.lemma_entry(i as int);
                }
                if self.registry.mark_exited(s) {
                    let ghost before = self.entries@;
                    self.entries[i].bridge.close();
                    proof {
                        assert(self@.bridges =~= old(self)@.bridges.update(
                            i as int,
                            old(self)@.bridges[i as int].close(),
                        ));
                        assert forall|j: int| 0 <= j < self.entries@.len() implies (
                        #[trigger] self.entries@[j]).bridge.wf() && self.entries@[j].id
                            == self.registry@.sessions[j].id by {
                            assert(old(self).entries@[j].id == old(self).registry@.sessions[j].id);
                            if j != i {
                                assert(self.entries@[j] == before[j]);
                            }
                        }
                        assert forall|j: int| 0 <= j < self@.bridges.len() implies (
                        #[trigger] self@.bridges[j]).wf() && self@.bridges[j].cap == self@.cap by {
                            old(self).lemma_entry(j);
                            if j != i {
                                assert(self.entries@[j] == before[j]);
                            } else {
                                self.entries@[i as int].bridge.lemma_wf();
                            }
                        }
                    }
                } else {
                    proof {
                        assert forall|j: int| 0 <= j < self.entries@.len() implies (
                        #[trigger] self.entries@[j]).bridge.wf() && self.entries@[j].id
                            == self.registry@.sessions[j].id by {
                            assert(old(self).entries@[j].id == old(self).registry@.sessions[j].id);
                        }
                    }
                }
                Ok(())
            },
            None => Err(ErrorKind::SessionNotFound),
        }
    }

    /// Records a kill request for session `s`. Returns `Ok(true)` when the
    /// caller must now send the child the termination signal; a repeated
    /// request, or one for an ended session, is a no-op and no error.
    pub fn kill(&mut self, s: u64) -> (r: Result<bool, ErrorKind>)
        requires
            old(self).wf(),
        ensures
            final(self).wf(),
            final(self).backend() == old(self).backend(),
            r == old(self)@.kill_signal(s),
            final(self)@ == old(self)@.after_kill(s),
    {
        let r = self.registry.kill(s);
        proof {
            assert forall|j: int| 0 <= j < self.entries@.len() implies (
            #[trigger] self.entries@[j]).bridge.wf() && self.entries@[j].id
                == self.registry@.sessions[j].id by {
                assert(old(self).entries@[j].id == old(self).registry@.sessions[j].id);
            }
        }
        match r {
            Ok(b) => Ok(b),
            Err(_) => Err(ErrorKind::SessionNotFound),
        }
    }

    /// Hands a backend event to the supervisor. Returns its action, and the
    /// status event owed to every subscriber when the state or the restart
    /// count changed.
    pub fn backend_event(&mut self, e: SupervisorEvent) -> (r: (SupervisorAction, Option<Reply>))
        requires
            old(self).wf(),
        ensures
            final(self).wf(),
            final(self)@ == old(self)@,
            (final(self).backend(), r.0) == old(self).backend().next(e),
            r.1 == (if final(self).backend().state == old(self).backend().state
                && final(self).backend().restart_count == old(self).backend().restart_count {
                None
            } else {
                Some(Reply::StatusEvent(final(self).backend().state, final(self).backend().restart_count))
            }),
    {
        let before_state = self.supervisor.state;
        let before_count = self.supervisor.restart_count;
        let a = self.supervisor.step(e);
        let notice = if self.supervisor.state == before_state && self.supervisor.restart_count
            == before_count {
            None
        } else {
            Some(Reply::StatusEvent(self.supervisor.state, self.supervisor.restart_count))
        };
        (a, notice)
    }

    /// The links subscribed to the backend's status.
    pub fn subscribers(&self) -> (r: Vec<u64>)
        ensures
            r@ == self@.subscribers,
    {
        self.subscribers.clone()
    }

    /// Link `link` is no longer sent status changes.
    pub fn unsubscribe(&mut self, link: u64)
        requires
            old(self).wf(),
        ensures
            final(self).wf(),
            final(self).backend() == old(self).backend(),
            final(self)@ == (HubView {
                subscribers: without(old(self)@.subscribers, link),
                ..old(self)@
            }),
    {
        let ghost src = self.subscribers@;
        let mut kept: Vec<u64> = Vec::new();
        let mut j: usize = 0;
        while j < self.subscribers.len()
            invariant
                j <= src.len(),
                src == self.subscribers@,
                kept@ == without(src.subrange(0, j as int), link),
            decreases src.len() - j,
        {
            let x = self.subscribers[j];
            if x != link {
                kept.push(x);
            }
            proof {
                let t = src.subrange(0, j + 1);
                assert(t.drop_last() =~= src.subrange(0, j as int));
            }
            j = j + 1;
        }
        assert(src.subrange(0, src.len() as int) =~= src);
        self.subscribers = kept;
    }

    fn add_subscriber(&mut self, link: u64)
        requires
            old(self).wf(),
        ensures
            final(self).wf(),
            final(self).backend() == old(self).backend(),
            final(self)@ == old(self)@.subscribe(link),
    {
        let mut j: usize = 0;
        while j < self.subscribers.len()
            invariant
                self.wf(),
                self@ == old(self)@,
                self.backend() == old(self).backend(),
                j <= self.subscribers@.len(),
                forall|k: int| 0 <= k < j ==> self.subscribers@[k] != link,
            decreases self.subscribers@.len() - j,
        {
            if self.subscribers[j] == link {
                assert(self@.subscribers[j as int] == link);
                return;
            }
            j = j + 1;
        }
        assert(!self@.subscribers.contains(link));
        self.subscribers.push(link);
    }

    /// Drops ended session `s` and its bridge once its output has drained; a
    /// live session is never dropped. Returns whether one was dropped.
    pub fn reap(&mut self, s: u64) -> (r: bool)
        requires
            old(self).wf(),
        ensures
            final(self).wf(),
            final(self).backend() == old(self).backend(),
            r == (old(self)@.held(s) && !is_active(old(self)@.registry.sessions, s)),
            r ==> final(self)@ == (HubView {
                registry: RegistryView {
                    sessions: old(self)@.registry.sessions.remove(old(self)@.pos(s)),
                    ..old(self)@.registry
                },
                bridges: old(self)@.bridges.remove(old(self)@.pos(s)),
                ..old(self)@
            }),
            !r ==> final(self)@ == old(self)@,
    {
        match self.registry.position(s) {
            Some(i) => {
                if !self.registry.remove(s) {
                    return false;
                }
                self.entries.remove(i);
                proof {
                    let oe = old(self).entries@;
                    assert(self@.bridges =~= old(self)@.bridges.remove(i as int));
                    assert forall|j: int| 0 <= j < self.entries@.len() implies (
                    #[trigger] self.entries@[j]).bridge.wf() && self.entries@[j].id
                        == self.registry@.sessions[j].id by {
                        let j2 = if j < i { j } else { j + 1 };
                        assert(self.entries@[j] == oe[j2]);
                        assert(oe[j2].id == old(self).registry@.sessions[j2].id);
                    }
                    assert forall|j: int| 0 <= j < self@.bridges.len() implies (
                    #[trigger] self@.bridges[j]).wf() && self@.bridges[j].cap == self@.cap by {
                        let j2 = if j < i { j } else { j + 1 };
                        old(self).lemma_entry(j2);
                        assert(self@.bridges[j] == old(self)@.bridges[j2]);
                    }
                }
                true
            },
            None => false,
        }
    }

    /// One pass of the session monitor: every session in `exited` whose child
    /// is gone and which was not killed becomes `Exited` and its links get the
    /// end-of-stream marker. Ids that are unknown or already ended are skipped.
    pub fn reconcile(&mut self, exited: &[u64])
        requires
            old(self).wf(),
        ensures
            final(self).wf(),
            final(self).backend() == old(self).backend(),
            final(self)@ == exit_all(old(self)@, exited@),
    {
        let mut i: usize = 0;
        while i < exited.len()
            invariant
                self.wf(),
                self.backend() == old(self).backend(),
                i <= exited@.len(),
                self@ == exit_all(old(self)@, exited@.subrange(0, i as int)),
            decreases exited@.len() - i,
        {
            let _ = self.child_exited(exited[i]);
            proof {
                let t = exited@.subrange(0, i + 1);
                assert(t.drop_last() =~= exited@.subrange(0, i as int));
                assert(t.last() == exited@[i as int]);
            }
            i = i + 1;
        }
        assert(exited@.subrange(0, exited@.len() as int) =~= exited@);
    }

    /// Session `s` as the registry holds it.
    pub fn session(&self, s: u64) -> (r: Option<Session>)
        requires
            self.wf(),
        ensures
            match r {
                Some(x) => self@.held(s) && x == self@.registry.sessions[self@.pos(s)],
                None => !self@.held(s),
            },
    {
        self.registry.get(s)
    }

    /// The output owed to link `l` of session `s` and not yet taken.
    pub fn received(&self, s: u64, l: u64) -> (r: Option<Vec<u8>>)
        requires
            self.wf(),
        ensures
            match r {
                Some(v) => self@.held(s) && has_link(self@.bridges[self@.pos(s)].links, l)
                    && v@ == self@.bridges[self@.pos(s)].links[crate::bridge::link_index(
                    self@.bridges[self@.pos(s)].links,
                    l,
                )].received,
                None => !self@.held(s) || !has_link(self@.bridges[self@.pos(s)].links, l),
            },
    {
        match self.registry.position(s) {
            Some(i) => {
                proof {
                    self.lemma_entry(i as int);
                }
                self.entries[i].bridge.received(l)
            },
            None => None,
        }
    }

    /// Hands over the output link `l` of session `s` is owed and has not taken
    /// yet, or `None` when the session or the link is unknown.
    pub fn take(&mut self, s: u64, l: u64) -> (r: Option<Vec<u8>>)
        requires
            old(self).wf(),
        ensures
            final(self).wf(),
            final(self).backend() == old(self).backend(),
            match r {
                Some(v) => old(self)@.held(s) && has_link(
                    old(self)@.bridges[old(self)@.pos(s)].links,
                    l,
                ) && v@ == old(self)@.bridges[old(self)@.pos(s)].links[crate::bridge::link_index(
                    old(self)@.bridges[old(self)@.pos(s)].links,
                    l,
                )].received && final(self)@ == old(self)@.with_bridge(
                    s,
                    old(self)@.bridges[old(self)@.pos(s)].take(l),
                ),
                None => (!old(self)@.held(s) || !has_link(
                    old(self)@.bridges[old(self)@.pos(s)].links,
                    l,
                )) && final(self)@ == old(self)@,
            },
    {
        match self.registry.position(s) {
            Some(i) => {
                proof {
                    self.lemma_entry(i as int);
                }
                let ghost before = self.entries@;
                let r = self.entries[i].bridge.take(l);
                proof {
                    self.lemma_update(old(self), before, i as int);
                    if r is None {
                        let ob = old(self)@.bridges;
                        assert(ob.update(i as int, ob[i as int]) =~= ob);
                    }
                }
                r
            },
            None => None,
        }
    }

    /// Whether link `l` of session `s`, attached or detached with its
    /// connection open, has been handed the end-of-stream marker.
    pub fn ended(&self, s: u64, l: u64) -> (r: Option<bool>)
        requires
            self.wf(),
        ensures
            r == (if self@.held(s) {
                self@.bridges[self@.pos(s)].link_ended(l)
            } else {
                None
            }),
    {
        match self.registry.position(s) {
            Some(i) => {
                proof {
                    self.lemma_entry(i as int);
                }
                self.entries[i].bridge.ended(l)
            },
            None => None,
        }
    }

    /// The bytes written to session `s`'s terminal so far.
    pub fn pty_input(&self, s: u64) -> (r: Option<Vec<u8>>)
        requires
            self.wf(),
        ensures
            match r {
                Some(v) => self@.held(s) && v@ == self@.bridges[self@.pos(s)].to_pty,
                None => !self@.held(s),
            },
    {
        match self.registry.position(s) {
            Some(i) => {
                proof {
                    self.lemma_entry(i as int);
                }
                Some(self.entries[i].bridge.pty_input())
            },
            None => None,
        }
    }

    /// Carries out one control request; `now` stamps a spawned session.
    pub fn handle(&mut self, req: &Request, now: u64) -> (r: Reply)
        requires
            old(self).wf(),
        ensures
            final(self).wf(),
            final(self).backend() == old(self).backend(),
            (r, final(self)@) == old(self)@.handle(req, now, old(self).backend()),
    {
        match req {
            Request::Spawn { rows, cols, .. } => match self.spawn(*rows, *cols, now) {
                Ok(id) => Reply::SpawnResult(id),
                Err(e) => Reply::Error(e),
            },
            Request::Attach { session, link } => Self::reply(self.attach(*session, *link)),
            Request::Detach { session, link } => Self::reply(self.detach(*session, *link)),
            Request::Resize { session, rows, cols } => Self::reply(
                self.resize(*session, *rows, *cols),
            ),
            Request::Input { session, link, data, .. } => Self::reply(
                self.input(*session, *link, data.as_slice()),
            ),
            Request::Kill { session } => match self.kill(*session) {
                Ok(_) => Reply::Done,
                Err(e) => Reply::Error(e),
            },
            Request::StatusSubscribe { link } => {
                self.add_subscriber(*link);
                self.status()
            },
        }
    }

    fn reply(r: Result<(), ErrorKind>) -> (o: Reply)
        ensures
            o == reply_of(r),
    {
        match r {
            Ok(()) => Reply::Done,
            Err(e) => Reply::Error(e),
        }
    }

    proof fn lemma_update(&self, prev: &Hub, before: Seq<Entry>, i: int)
        requires
            prev.wf(),
            before == prev.entries@,
            0 <= i < before.len(),
            self.registry == prev.registry,
            self.cap == prev.cap,
            self.supervisor == prev.supervisor,
            self.subscribers == prev.subscribers,
            self.entries@.len() == before.len(),
            self.entries@[i].id == before[i].id,
            self.entries@[i].bridge.wf(),
            self.entries@[i].bridge@.cap == before[i].bridge@.cap,
            forall|j: int| 0 <= j < before.len() && j != i ==> self.entries@[j] == before[j],
        ensures
            self.wf(),
            self@ == (HubView { bridges: prev@.bridges.update(i, self.entries@[i].bridge@), ..prev@ }),
    {
        assert(self@.bridges =~= prev@.bridges.update(i, self.entries@[i].bridge@));
        assert forall|j: int| 0 <= j < self.entries@.len() implies (#[trigger] self.entries@[j]).bridge.wf()
            && self.entries@[j].id == self.registry@.sessions[j].id by {
            if j != i {
                assert(self.entries@[j] == before[j]);
            }
        }
        assert forall|j: int| 0 <= j < self@.bridges.len() implies (#[trigger] self@.bridges[j]).wf()
            && self@.bridges[j].cap == self@.cap by {
            if j != i {
                assert(self.entries@[j] == before[j]);
                prev.lemma_entry(j);
            } else {
                prev.lemma_entry(j);
                self.entries@[i].bridge.lemma_wf();
            }
        }
    }
}

} // verus!
