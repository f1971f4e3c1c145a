//! The session registry: every pseudo-terminal session by id, its size and its
//! lifecycle. Creating the terminal and signalling the child are the caller's;
//! the registry decides what each request does and records the outcome.
use vstd::prelude::*;

verus! {

/// A session's lifecycle; it only moves forward, from `Active` to one of the
/// two final states.
#[derive(Clone, Copy, PartialEq, Eq, Debug, Structural)]
pub enum SessionState {
    Active,
    Exited,
    Killed,
}

#[derive(Clone, Copy, PartialEq, Eq, Debug, Structural)]
pub struct Session {
    pub id: u64,
    pub rows: u16,
    pub cols: u16,
    pub created_at: u64,
    pub state: SessionState,
    /// A kill was requested; the session becomes `Killed` when its child's
    /// exit is observed.
    pub kill_requested: bool,
}

#[derive(Clone, Copy, PartialEq, Eq, Debug, Structural)]
pub enum SessionError {
    /// No session has that id, or the request needs a live one and it is not.
    SessionNotFound,
    /// The session could not be created.
    SpawnFailed,
}

/// The abstract state of a registry.
pub ghost struct RegistryView {
    pub sessions: Seq<Session>,
    pub next_id: u64,
}

pub open spec fn has_session(ss: Seq<Session>, id: u64) -> bool {
    exists|i: int| 0 <= i < ss.len() && #[trigger] ss[i].id == id
}

pub open spec fn session_index(ss: Seq<Session>, id: u64) -> int {
    choose|i: int| 0 <= i < ss.len() && #[trigger] ss[i].id == id
}

pub open spec fn is_active(ss: Seq<Session>, id: u64) -> bool {
    has_session(ss, id) && ss[session_index(ss, id)].state == SessionState::Active
}

pub open spec fn with_state(ss: Seq<Session>, id: u64, st: SessionState) -> Seq<Session> {
    ss.update(session_index(ss, id), Session { state: st, ..ss[session_index(ss, id)] })
}

impl RegistryView {
    /// Ids are increasing in order of creation and all below `next_id`, so an
    /// id is never handed out twice.
    pub open spec fn wf(self) -> bool {
        &&& forall|i: int, j: int|
            0 <= i < j < self.sessions.len() ==> #[trigger] self.sessions[i].id
                < #[trigger] self.sessions[j].id
        &&& forall|i: int| 0 <= i < self.sessions.len() ==> #[trigger] self.sessions[i].id < self.next_id
    }

    /// Whether a termination signal is owed to session `id`: it is live and
    /// no kill was requested before.
    pub open spec fn signal_owed(self, id: u64) -> bool {
        is_active(self.sessions, id) && !self.sessions[session_index(self.sessions, id)].kill_requested
    }

    pub open spec fn kill(self, id: u64) -> RegistryView {
        if self.signal_owed(id) {
            RegistryView {
                sessions: self.sessions.update(
                    session_index(self.sessions, id),
                    Session { kill_requested: true, ..self.sessions[session_index(self.sessions, id)] },
                ),
                ..self
            }
        } else {
            self
        }
    }

    /// `Ok(true)` when the caller must now send the termination signal,
    /// `Ok(false)` when one was sent before or the session has ended.
    pub open spec fn kill_result(self, id: u64) -> Result<bool, SessionError> {
        if !has_session(self.sessions, id) {
            Err(SessionError::SessionNotFound)
        } else {
            Ok(self.signal_owed(id))
        }
    }

    /// The child of live session `id` was seen to exit: the session ends as
    /// `Killed` when a kill was requested, else as `Exited`.
    pub open spec fn exit(self, id: u64) -> RegistryView {
        if is_active(self.sessions, id) {
            RegistryView {
                sessions: with_state(
                    self.sessions,
                    id,
                    if self.sessions[session_index(self.sessions, id)].kill_requested {
                        SessionState::Killed
                    } else {
                        SessionState::Exited
                    },
                ),
                ..self
            }
        } else {
            self
        }
    }
}

/// In a well-formed registry the session at `k` is the one `session_index` finds.
pub proof fn lemma_session_index(ss: Seq<Session>, next_id: u64, k: int, id: u64)
    requires
        (RegistryView { sessions: ss, next_id }).wf(),
        0 <= k < ss.len(),
        ss[k].id == id,
    ensures
        has_session(ss, id),
        session_index(ss, id) == k,
{
    let j = session_index(ss, id);
    if j < k {
        assert(ss[j].id < ss[k].id);
    } else if k < j {
        assert(ss[k].id < ss[j].id);
    }
}

/// Killing twice is killing once: the second call changes nothing and is no
/// error, and when the child's exit is then observed a live session makes
/// exactly one move, to `Killed`.
pub proof fn lemma_kill_idempotent(r: RegistryView, id: u64)
    requires
        r.wf(),
        has_session(r.sessions, id),
    ensures
        r.kill(id).kill(id) == r.kill(id),
        r.kill(id).kill_result(id) == Ok::<bool, SessionError>(false),
        r.kill_result(id) == Ok::<bool, SessionError>(r.signal_owed(id)),
        is_active(r.sessions, id) ==> r.kill(id).exit(id).sessions[session_index(
            r.sessions,
            id,
        )].state == SessionState::Killed,
        !is_active(r.sessions, id) ==> r.kill(id).exit(id) == r,
        r.kill(id).exit(id).exit(id) == r.kill(id).exit(id),
{
    let k = session_index(r.sessions, id);
    let q = r.kill(id);
    assert(q.sessions[k].id == id);
    assert(q.wf());
    lemma_session_index(q.sessions, q.next_id, k, id);
    let e = q.exit(id);
    assert(e.sessions[k].id == id);
    assert(e.wf());
    lemma_session_index(e.sessions, e.next_id, k, id);
}

/// The sessions of one process, by id.
pub struct Registry {
    sessions: Vec<Session>,
    next_id: u64,
}

impl Registry {
    pub closed spec fn view(&self) -> RegistryView {
        RegistryView { sessions: self.sessions@, next_id: self.next_id }
    }

    pub fn new() -> (r: Registry)
        ensures
            r@.wf(),
            r@.sessions == Seq::<Session>::empty(),
            r@.next_id == 1,
    {
        Registry { sessions: Vec::new(), next_id: 1 }
    }

    /// Where session `id` stands among the sessions, if held.
    pub fn position(&self, id: u64) -> (r: Option<usize>)
        requires
            self@.wf(),
        ensures
            match r {
                Some(i) => i < self@.sessions.len() && self@.sessions[i as int].id == id
                    && has_session(self@.sessions, id) && i == session_index(self@.sessions, id),
                None => !has_session(self@.sessions, id),
            },
    {
        let mut i: usize = 0;
        while i < self.sessions.len()
            invariant
                self@.wf(),
                i <= self.sessions@.len(),
                forall|j: int| 0 <= j < i ==> self.sessions@[j].id != id,
            decreases self.sessions@.len() - i,
        {
            if self.sessions[i].id == id {
                proof {
                    lemma_session_index(self.sessions@, self.next_id, i as int, id);
                }
                return Some(i);
            }
            i = i + 1;
        }
        None
    }

    /// The session `id`, if the registry holds it.
    pub fn get(&self, id: u64) -> (r: Option<Session>)
        requires
            self@.wf(),
        ensures
            match r {
                Some(s) => has_session(self@.sessions, id) && s == self@.sessions[session_index(
                    self@.sessions,
                    id,
                )],
                None => !has_session(self@.sessions, id),
            },
    {
        match self.position(id) {
            Some(i) => Some(self.sessions[i]),
            None => None,
        }
    }

    /// The number of sessions held.
    pub fn len(&self) -> (r: usize)
        ensures
            r == self@.sessions.len(),
    {
        self.sessions.len()
    }

    /// Records a new `Active` session of the given size under a fresh id.
    /// Fails with `SpawnFailed` only once every id has been handed out.
    pub fn spawn(&mut self, rows: u16, cols: u16, now: u64) -> (r: Result<u64, SessionError>)
        requires
            old(self)@.wf(),
        ensures
            final(self)@.wf(),
            old(self)@.next_id < u64::MAX ==> r == Ok::<u64, SessionError>(old(self)@.next_id)
                && final(self)@.next_id == old(self)@.next_id + 1 && final(self)@.sessions
                == old(self)@.sessions.push(
                (Session {
                    id: old(self)@.next_id,
                    rows,
                    cols,
                    created_at: now,
                    state: SessionState::Active,
                    kill_requested: false,
                }),
            ),
            old(self)@.next_id == u64::MAX ==> r == Err::<u64, SessionError>(
                SessionError::SpawnFailed,
            ) && final(self)@ == old(self)@,
    {
        if self.next_id == u64::MAX {
            return Err(SessionError::SpawnFailed);
        }
        let id = self.next_id;
        self.sessions.push(
            Session { id, rows, cols, created_at: now, state: SessionState::Active, kill_requested: false },
        );
        self.next_id = id + 1;
        Ok(id)
    }

    /// Records a new size for a live session.
    pub fn resize(&mut self, id: u64, rows: u16, cols: u16) -> (r: Result<(), SessionError>)
        requires
            old(self)@.wf(),
        ensures
            final(self)@.wf(),
            is_active(old(self)@.sessions, id) ==> r == Ok::<(), SessionError>(())
                && final(self)@ == (RegistryView {
                sessions: old(self)@.sessions.update(
                    session_index(old(self)@.sessions, id),
                    Session { rows, cols, ..old(self)@.sessions[session_index(old(self)@.sessions, id)] },
                ),
                ..old(self)@
            }),
            !is_active(old(self)@.sessions, id) ==> r == Err::<(), SessionError>(
                SessionError::SessionNotFound,
            ) && final(self)@ == old(self)@,
    {
        match self.position(id) {
            Some(i) => {
                if self.sessions[i].state != SessionState::Active {
                    return Err(SessionError::SessionNotFound);
                }
                self.sessions[i].rows = rows;
                self.sessions[i].cols = cols;
                proof {
                    assert(self@.sessions =~= old(self)@.sessions.update(
                        i as int,
                        Session { rows, cols, ..old(self)@.sessions[i as int] },
                    ));
                }
                Ok(())
            },
            None => Err(SessionError::SessionNotFound),
        }
    }

    /// Records a kill request. Returns `Ok(true)` when the caller must now
    /// send the termination signal; a repeated request, or one for a session
    /// that has ended, is a no-op and no error.
    pub fn kill(&mut self, id: u64) -> (r: Result<bool, SessionError>)
        requires
            old(self)@.wf(),
        ensures
            final(self)@.wf(),
            final(self)@ == old(self)@.kill(id),
            r == old(self)@.kill_result(id),
    {
        match self.position(id) {
            Some(i) => {
                if self.sessions[i].state != SessionState::Active || self.sessions[i].kill_requested {
                    return Ok(false);
                }
                self.sessions[i].kill_requested = true;
                Ok(true)
            },
            None => Err(SessionError::SessionNotFound),
        }
    }

    /// Records that a live session's child exited: it becomes `Killed` if a
    /// kill was requested, else `Exited`. Returns whether the session was live.
    pub fn mark_exited(&mut self, id: u64) -> (r: bool)
        requires
            old(self)@.wf(),
        ensures
            final(self)@.wf(),
            r == is_active(old(self)@.sessions, id),
            final(self)@ == old(self)@.exit(id),
    {
        match self.position(id) {
            Some(i) => {
                if self.sessions[i].state != SessionState::Active {
                    return false;
                }
                let st = if self.sessions[i].kill_requested {
                    SessionState::Killed
                } else {
                    SessionState::Exited
                };
                self.sessions[i].state = st;
                proof {
                    assert(self@.sessions =~= with_state(old(self)@.sessions, id, st));
                }
                true
            },
            None => false,
        }
    }

    /// Drops an ended session once its output has drained. A live session is
    /// never dropped. Returns whether a session was dropped.
    pub fn remove(&mut self, id: u64) -> (r: bool)
        requires
            old(self)@.wf(),
        ensures
            final(self)@.wf(),
            r == (has_session(old(self)@.sessions, id) && !is_active(old(self)@.sessions, id)),
            r ==> final(self)@ == (RegistryView {
                sessions: old(self)@.sessions.remove(session_index(old(self)@.sessions, id)),
                ..old(self)@
            }),
            !r ==> final(self)@ == old(self)@,
    {
        match self.position(id) {
            Some(i) => {
                if self.sessions[i].state == SessionState::Active {
                    return false;
                }
                self.sessions.remove(i);
                proof {
                    let ss = self@.sessions;
                    let os = old(self)@.sessions;
                    assert forall|a: int, b: int| 0 <= a < b < ss.len() implies #[trigger] ss[a].id
                        < #[trigger] ss[b].id by {
                        let a2 = if a < i { a } else { a + 1 };
                        let b2 = if b < i { b } else { b + 1 };
                        assert(os[a2].id < os[b2].id);
                    }
                    assert forall|a: int| 0 <= a < ss.len() implies #[trigger] ss[a].id
                        < self.next_id by {
                        let a2 = if a < i { a } else { a + 1 };
                        assert(os[a2].id < self.next_id);
                    }
                }
                true
            },
            None => false,
        }
    }
}

} // verus!
