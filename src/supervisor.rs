//! The backend supervisor's decisions: from its state and an observed event to
//! its next state and the action the caller must carry out (kill, spawn after
//! a delay, give up). Probing, killing and spawning are the caller's.
use vstd::prelude::*;

verus! {

#[derive(Clone, Copy, PartialEq, Eq, Debug, Structural)]
pub enum BackendState {
    Starting,
    Healthy,
    Unhealthy,
    Restarting,
    Stopped,
}

/// The restart policy.
#[derive(Clone, Copy, PartialEq, Eq, Debug, Structural)]
pub struct Policy {
    /// Consecutive failed probes after which the process is restarted; the
    /// first failure only marks the backend unhealthy, so it is at least two.
    pub failure_threshold: u32,
    /// Restarts allowed before the supervisor gives up.
    pub max_restarts: u32,
    /// Healthy time, in milliseconds, after which the restart count is cleared.
    pub healthy_reset_ms: u64,
    /// Delay before the first restart; each further one doubles it.
    pub base_backoff_ms: u64,
    /// Upper bound of the delay.
    pub max_backoff_ms: u64,
}

#[derive(Clone, Copy, PartialEq, Eq, Debug, Structural)]
pub enum SupervisorEvent {
    /// An explicit start or restart command.
    Start,
    /// A health probe answered in time, at the given time in milliseconds.
    ProbeOk(u64),
    /// A health probe timed out.
    ProbeFailed,
    /// The process exited.
    ProcessExited,
    /// The process that was being restarted is gone.
    RestartCompleted,
    /// Shutdown.
    Stop,
}

#[derive(Clone, Copy, PartialEq, Eq, Debug, Structural)]
pub enum SupervisorAction {
    Nothing,
    /// Spawn the process after the given delay in milliseconds.
    Spawn(u64),
    /// Kill the process, then report `RestartCompleted`.
    KillProcess,
    /// The restart budget is spent: kill the process and report a fatal error.
    GiveUp,
    /// Kill the process for shutdown.
    Shutdown,
}

#[derive(Clone, Copy, PartialEq, Eq, Debug, Structural)]
pub struct Supervisor {
    pub policy: Policy,
    pub state: BackendState,
    pub restart_count: u32,
    /// Consecutive failures in the current episode.
    pub failures: u32,
    /// When the current healthy period began.
    pub healthy_since: u64,
    /// Set when the restart budget was spent.
    pub fatal: bool,
}

pub open spec fn min_nat(a: nat, b: nat) -> nat {
    if a <= b {
        a
    } else {
        b
    }
}

/// The delay before restart `k + 1`: the base doubled `k` times, bounded by `cap`.
pub open spec fn backoff(base: nat, cap: nat, k: nat) -> nat
    decreases k,
{
    if k == 0 {
        min_nat(base, cap)
    } else {
        min_nat(2 * backoff(base, cap, (k - 1) as nat), cap)
    }
}

impl Supervisor {
    /// A threshold of at least two makes a failure pass through `Unhealthy`
    /// before it can restart anything.
    pub open spec fn wf(self) -> bool {
        &&& self.policy.failure_threshold >= 2
        &&& self.state == BackendState::Healthy ==> self.failures == 0
        &&& self.restart_count <= self.policy.max_restarts
        &&& self.failures < self.policy.failure_threshold
    }

    /// The next state and the action for event `e`.
    pub open spec fn next(self, e: SupervisorEvent) -> (Supervisor, SupervisorAction) {
        match e {
            SupervisorEvent::Start => {
                if self.state == BackendState::Stopped {
                    (
                        Supervisor {
                            state: BackendState::Starting,
                            restart_count: 0,
                            failures: 0,
                            fatal: false,
                            ..self
                        },
                        SupervisorAction::Spawn(0),
                    )
                } else {
                    (self, SupervisorAction::Nothing)
                }
            },
            SupervisorEvent::ProbeOk(now) => match self.state {
                BackendState::Starting | BackendState::Unhealthy => (
                    Supervisor {
                        state: BackendState::Healthy,
                        failures: 0,
                        healthy_since: now,
                        ..self
                    },
                    SupervisorAction::Nothing,
                ),
                BackendState::Healthy => {
                    if now >= self.healthy_since && now - self.healthy_since
                        >= self.policy.healthy_reset_ms {
                        (Supervisor { restart_count: 0, ..self }, SupervisorAction::Nothing)
                    } else {
                        (self, SupervisorAction::Nothing)
                    }
                },
                _ => (self, SupervisorAction::Nothing),
            },
            SupervisorEvent::ProbeFailed | SupervisorEvent::ProcessExited => match self.state {
                BackendState::Starting | BackendState::Healthy | BackendState::Unhealthy => {
                    if self.failures + 1 >= self.policy.failure_threshold {
                        (
                            Supervisor { state: BackendState::Restarting, failures: 0, ..self },
                            SupervisorAction::KillProcess,
                        )
                    } else {
                        (
                            Supervisor {
                                state: BackendState::Unhealthy,
                                failures: (self.failures + 1) as u32,
                                ..self
                            },
                            SupervisorAction::Nothing,
                        )
                    }
                },
                _ => (self, SupervisorAction::Nothing),
            },
            SupervisorEvent::RestartCompleted => {
                if self.state != BackendState::Restarting {
                    (self, SupervisorAction::Nothing)
                } else if self.restart_count < self.policy.max_restarts {
                    (
                        Supervisor {
                            state: BackendState::Starting,
                            restart_count: (self.restart_count + 1) as u32,
                            ..self
                        },
                        SupervisorAction::Spawn(
                            backoff(
                                self.policy.base_backoff_ms as nat,
                                self.policy.max_backoff_ms as nat,
                                self.restart_count as nat,
                            ) as u64,
                        ),
                    )
                } else {
                    (
                        Supervisor { state: BackendState::Stopped, fatal: true, ..self },
                        SupervisorAction::GiveUp,
                    )
                }
            },
            SupervisorEvent::Stop => {
                if self.state == BackendState::Stopped {
                    (self, SupervisorAction::Nothing)
                } else {
                    (Supervisor { state: BackendState::Stopped, ..self }, SupervisorAction::Shutdown)
                }
            },
        }
    }

}

/// The supervisor after `k` consecutive failed probes.
pub open spec fn fail_times(s: Supervisor, k: nat) -> Supervisor
    decreases k,
{
    if k == 0 {
        s
    } else {
        fail_times(s, (k - 1) as nat).next(SupervisorEvent::ProbeFailed).0
    }
}

/// From a healthy backend, failed probes keep it `Unhealthy` until the
/// threshold is reached; the probe that reaches it, and only that one, moves it
/// to `Restarting` and asks for the kill; later failures in the episode change
/// nothing. Completing that restart raises the restart count by exactly one.
pub proof fn lemma_failure_episode(s: Supervisor, k: nat)
    requires
        s.wf(),
        s.state == BackendState::Healthy,
    ensures
        fail_times(s, k).wf(),
        fail_times(s, k).policy == s.policy,
        fail_times(s, k).restart_count == s.restart_count,
        0 < k < s.policy.failure_threshold ==> fail_times(s, k).state == BackendState::Unhealthy
            && fail_times(s, k).failures == k,
        k >= s.policy.failure_threshold ==> fail_times(s, k).state == BackendState::Restarting,
        k >= 1 ==> ((fail_times(s, (k - 1) as nat).next(SupervisorEvent::ProbeFailed).1
            == SupervisorAction::KillProcess) <==> k == s.policy.failure_threshold),
        k >= s.policy.failure_threshold && s.restart_count < s.policy.max_restarts ==> fail_times(
            s,
            k,
        ).next(SupervisorEvent::RestartCompleted).0.restart_count == s.restart_count + 1,
    decreases k,
{
    if k > 0 {
        lemma_failure_episode(s, (k - 1) as nat);
        let p = fail_times(s, (k - 1) as nat);
        assert(fail_times(s, k) == p.next(SupervisorEvent::ProbeFailed).0);
        if k == 1 {
            assert(p == s);
        }
    }
}

/// A backend that stays healthy for the configured period has its restart
/// count cleared by the next successful probe.
pub proof fn lemma_sustained_health_resets(s: Supervisor, now: u64)
    requires
        s.wf(),
        s.state == BackendState::Healthy,
        now >= s.healthy_since + s.policy.healthy_reset_ms,
    ensures
        s.next(SupervisorEvent::ProbeOk(now)).0.restart_count == 0,
        s.next(SupervisorEvent::ProbeOk(now)).0.state == BackendState::Healthy,
{
}

impl Supervisor {
    /// A supervisor that has not started its process yet.
    pub fn new(policy: Policy) -> (s: Supervisor)
        requires
            policy.failure_threshold >= 2,
        ensures
            s.wf(),
            s == (Supervisor {
                policy,
                state: BackendState::Stopped,
                restart_count: 0,
                failures: 0,
                healthy_since: 0,
                fatal: false,
            }),
    {
        Supervisor {
            policy,
            state: BackendState::Stopped,
            restart_count: 0,
            failures: 0,
            healthy_since: 0,
            fatal: false,
        }
    }

    /// Takes event `e` and returns what the caller must do.
    pub fn step(&mut self, e: SupervisorEvent) -> (a: SupervisorAction)
        requires
            old(self).wf(),
        ensures
            final(self).wf(),
            (*final(self), a) == old(self).next(e),
    {
        match e {
            SupervisorEvent::Start => {
                if self.state == BackendState::Stopped {
                    self.state = BackendState::Starting;
                    self.restart_count = 0;
                    self.failures = 0;
                    self.fatal = false;
                    SupervisorAction::Spawn(0)
                } else {
                    SupervisorAction::Nothing
                }
            },
            SupervisorEvent::ProbeOk(now) => {
                match self.state {
                    BackendState::Starting | BackendState::Unhealthy => {
                        self.state = BackendState::Healthy;
                        self.failures = 0;
                        self.healthy_since = now;
                    },
                    BackendState::Healthy => {
                        if now >= self.healthy_since && now - self.healthy_since
                            >= self.policy.healthy_reset_ms {
                            self.restart_count = 0;
                        }
                    },
                    _ => {},
                }
                SupervisorAction::Nothing
            },
            SupervisorEvent::ProbeFailed | SupervisorEvent::ProcessExited => {
                match self.state {
                    BackendState::Starting | BackendState::Healthy | BackendState::Unhealthy => {
                        if self.failures + 1 >= self.policy.failure_threshold {
                            self.state = BackendState::Restarting;
                            self.failures = 0;
                            SupervisorAction::KillProcess
                        } else {
                            self.state = BackendState::Unhealthy;
                            self.failures = self.failures + 1;
                            SupervisorAction::Nothing
                        }
                    },
                    _ => SupervisorAction::Nothing,
                }
            },
            SupervisorEvent::RestartCompleted => {
                if self.state != BackendState::Restarting {
                    SupervisorAction::Nothing
                } else if self.restart_count < self.policy.max_restarts {
                    let delay = backoff_delay(
                        self.policy.base_backoff_ms,
                        self.policy.max_backoff_ms,
                        self.restart_count,
                    );
                    self.state = BackendState::Starting;
                    self.restart_count = self.restart_count + 1;
                    SupervisorAction::Spawn(delay)
                } else {
                    self.state = BackendState::Stopped;
                    self.fatal = true;
                    SupervisorAction::GiveUp
                }
            },
            SupervisorEvent::Stop => {
                if self.state == BackendState::Stopped {
                    SupervisorAction::Nothing
                } else {
                    self.state = BackendState::Stopped;
                    SupervisorAction::Shutdown
                }
            },
        }
    }
}

/// The delay before restart `k + 1`.
pub fn backoff_delay(base: u64, cap: u64, k: u32) -> (r: u64)
    ensures
        r == backoff(base as nat, cap as nat, k as nat),
{
    let mut d: u64 = if base <= cap {
        base
    } else {
        cap
    };
    let mut i: u32 = 0;
    while i < k
        invariant
            i <= k,
            d <= cap,
            d == backoff(base as nat, cap as nat, i as nat),
        decreases k - i,
    {
        if d >= cap - d {
            d = cap;
        } else {
            d = 2 * d;
        }
        i = i + 1;
    }
    d
}

} // verus!
