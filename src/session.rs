//! The decisions of a trace: which tracees are alive, when a syscall stop
//! is an entry or an exit, which signals are passed on, and how the trace
//! ends. The caller waits on the kernel and performs the ptrace calls;
//! each event it sees is handed to these functions.
use vstd::prelude::*;
use std::collections::{HashMap, HashSet};
use crate::trace::{
    handle_syscall_regs, pending_view, syscall_step, PendingSyscall, SyscallRegs, TraceAccess,
    TraceReport,
};

verus! {

broadcast use vstd::std_specs::hash::group_hash_axioms;

pub const SIGTRAP: i32 = 5;
pub const SIGSTOP: i32 = 19;

/// Exit codes by which the traced child reports a failure of its own
/// set-up.
pub const EXIT_CHROOT_FAILURE: i32 = 40;
pub const EXIT_PTRACE_DENIED: i32 = 41;
pub const EXIT_EXEC_FAILURE: i32 = 42;

#[derive(Debug)]
pub enum TraceError {
    Nix(i32),
    Permission(String),
    UnexpectedExit,
    Unsupported(String),
    Fanotify(String),
    Io(String),
}

/// A failure of the traced child before it ran the target.
#[derive(Debug, Clone, Copy, PartialEq, Eq, Structural)]
pub enum TraceExit {
    ChrootFailure,
    PtraceDenied,
    ExecFailure,
}

impl TraceExit {
    pub open spec fn from_status_spec(status: i32) -> Option<TraceExit> {
        if status == EXIT_CHROOT_FAILURE {
            Some(TraceExit::ChrootFailure)
        } else if status == EXIT_PTRACE_DENIED {
            Some(TraceExit::PtraceDenied)
        } else if status == EXIT_EXEC_FAILURE {
            Some(TraceExit::ExecFailure)
        } else {
            None
        }
    }

    pub fn from_status(status: i32) -> (r: Option<TraceExit>)
        ensures
            r == Self::from_status_spec(status),
    {
        if status == EXIT_CHROOT_FAILURE {
            Some(TraceExit::ChrootFailure)
        } else if status == EXIT_PTRACE_DENIED {
            Some(TraceExit::PtraceDenied)
        } else if status == EXIT_EXEC_FAILURE {
            Some(TraceExit::ExecFailure)
        } else {
            None
        }
    }
}

/// A refused ptrace is a permission error; a failed chroot or exec is an
/// I/O error.
pub fn map_trace_exit(exit: TraceExit) -> (r: TraceError)
    ensures
        match exit {
            TraceExit::PtraceDenied => r matches TraceError::Permission(_),
            _ => r matches TraceError::Io(_),
        },
{
    match exit {
        TraceExit::PtraceDenied => TraceError::Permission(
            "ptrace not permitted on this system".to_owned(),
        ),
        TraceExit::ChrootFailure => TraceError::Io("failed to chroot into trace root".to_owned()),
        TraceExit::ExecFailure => TraceError::Io("failed to exec trace command".to_owned()),
    }
}

/// How a trace ends, given the root's exit status if it exited.
pub open spec fn outcome_spec(root_status: Option<i32>) -> Option<TraceExit> {
    match root_status {
        Some(s) => TraceExit::from_status_spec(s),
        None => None,
    }
}

/// The live tracees of a trace and the exit status of its root.
#[derive(Debug)]
pub struct TraceeTracker {
    pub root: i32,
    pub tracees: HashSet<i32>,
    pub root_status: Option<i32>,
}

impl TraceeTracker {
    pub fn new(root: i32) -> (r: Self)
        ensures
            r.root == root,
            r.tracees@ == set![root],
            r.root_status is None,
    {
        let mut tracees = HashSet::new();
        tracees.insert(root);
        assert(tracees@ =~= set![root]);
        TraceeTracker { root, tracees, root_status: None }
    }

    pub fn ensure_tracee(&mut self, pid: i32)
        ensures
            final(self).tracees@ == old(self).tracees@.insert(pid),
            final(self).root == old(self).root,
            final(self).root_status == old(self).root_status,
    {
        self.tracees.insert(pid);
    }

    pub fn on_exit(&mut self, pid: i32, status: Option<i32>)
        ensures
            final(self).tracees@ == old(self).tracees@.remove(pid),
            final(self).root == old(self).root,
            final(self).root_status == if pid == old(self).root {
                status
            } else {
                old(self).root_status
            },
    {
        if pid == self.root {
            self.root_status = status;
        }
        self.tracees.remove(&pid);
    }

    pub fn root_status(&self) -> (r: Option<i32>)
        ensures
            r == self.root_status,
    {
        self.root_status
    }

    pub fn is_done(&self) -> (r: bool)
        ensures
            r == (self.tracees@.is_empty()),
    {
        self.tracees.is_empty()
    }
}

/// The state of a ptrace session: live tracees, whether each one's next
/// syscall stop is an entry, its pending syscall, and the report.
#[derive(Debug)]
pub struct TraceSession {
    pub tracker: TraceeTracker,
    pub entering: HashMap<i32, bool>,
    pub pending: HashMap<i32, PendingSyscall>,
    pub report: TraceReport,
}

/// Whether the next syscall stop of `pid` is an entry; a tracee not seen
/// yet starts at an entry.
pub open spec fn entering_spec(m: Map<i32, bool>, pid: i32) -> bool {
    if m.contains_key(pid) {
        m[pid]
    } else {
        true
    }
}

impl TraceSession {
    pub open spec fn wf(&self) -> bool {
        self.report.wf()
    }

    pub fn new(root: i32) -> (r: Self)
        ensures
            r.wf(),
            r.tracker.root == root,
            r.tracker.tracees@ == set![root],
            r.tracker.root_status is None,
            r.entering@ == Map::<i32, bool>::empty(),
            r.pending@ == Map::<i32, PendingSyscall>::empty(),
            r.report.view() == Map::<Seq<char>, TraceAccess>::empty(),
    {
        TraceSession {
            tracker: TraceeTracker::new(root),
            entering: HashMap::new(),
            pending: HashMap::new(),
            report: TraceReport::new(),
        }
    }

    fn note_tracee(&mut self, pid: i32)
        ensures
            final(self).tracker.tracees@ == old(self).tracker.tracees@.insert(pid),
            final(self).tracker.root == old(self).tracker.root,
            final(self).tracker.root_status == old(self).tracker.root_status,
            final(self).entering@ == if old(self).entering@.contains_key(pid) {
                old(self).entering@
            } else {
                old(self).entering@.insert(pid, true)
            },
            final(self).pending == old(self).pending,
            final(self).report == old(self).report,
    {
        self.tracker.ensure_tracee(pid);
        if !self.entering.contains_key(&pid) {
            self.entering.insert(pid, true);
        }
    }

    /// A signal stop of `pid`: the signal to pass on when resuming it,
    /// none for the tracer's own SIGTRAP and SIGSTOP.
    pub fn on_stopped(&mut self, pid: i32, signal: i32) -> (forward: Option<i32>)
        ensures
            final(self).tracker.tracees@ == old(self).tracker.tracees@.insert(pid),
            final(self).tracker.root == old(self).tracker.root,
            final(self).tracker.root_status == old(self).tracker.root_status,
            entering_spec(final(self).entering@, pid) == entering_spec(old(self).entering@, pid),
            final(self).pending == old(self).pending,
            final(self).report == old(self).report,
            forward == if signal != SIGTRAP && signal != SIGSTOP {
                Some(signal)
            } else {
                None
            },
    {
        self.note_tracee(pid);
        if signal != SIGTRAP && signal != SIGSTOP {
            Some(signal)
        } else {
            None
        }
    }

    /// Whether the next syscall stop of `pid` is an entry.
    pub fn entering_of(&self, pid: i32) -> (r: bool)
        ensures
            r == entering_spec(self.entering@, pid),
    {
        match self.entering.get(&pid) {
            Some(e) => *e,
            None => true,
        }
    }

    /// A syscall stop of `pid`; `path` is the string read at the address
    /// that `syscall_path_address` gave for it, empty when none.
    pub fn on_syscall_stop(&mut self, pid: i32, syscall: i64, regs: &SyscallRegs, path: &str)
        requires
            old(self).wf(),
        ensures
            final(self).wf(),
            final(self).tracker.tracees@ == old(self).tracker.tracees@.insert(pid),
            final(self).tracker.root == old(self).tracker.root,
            final(self).tracker.root_status == old(self).tracker.root_status,
            entering_spec(final(self).entering@, pid) == !entering_spec(old(self).entering@, pid),
            (pending_view(final(self).pending@), final(self).report.view()) == syscall_step(
                pending_view(old(self).pending@),
                old(self).report.view(),
                pid,
                entering_spec(old(self).entering@, pid),
                syscall,
                *regs,
                path@,
            ),
    {
        self.note_tracee(pid);
        let entering = self.entering_of(pid);
        handle_syscall_regs(pid, entering, syscall, regs, &mut self.pending, &mut self.report, path);
        self.entering.insert(pid, !entering);
    }

    /// `parent` created `child` by fork, vfork or clone.
    pub fn on_new_tracee(&mut self, parent: i32, child: i32)
        ensures
            final(self).tracker.tracees@ == old(self).tracker.tracees@.insert(parent).insert(child),
            final(self).tracker.root == old(self).tracker.root,
            final(self).tracker.root_status == old(self).tracker.root_status,
            entering_spec(final(self).entering@, child) == entering_spec(old(self).entering@, child),
            entering_spec(final(self).entering@, parent) == entering_spec(old(self).entering@, parent),
            forall|p: i32|
                entering_spec(final(self).entering@, p) == entering_spec(old(self).entering@, p),
            final(self).pending == old(self).pending,
            final(self).report == old(self).report,
    {
        self.note_tracee(parent);
        self.note_tracee(child);
    }

    /// How the trace ends once no tracee is left: an error for the
    /// child's set-up failure codes, success otherwise.
    pub fn finish(&self) -> (r: Result<(), TraceError>)
        ensures
            match outcome_spec(self.tracker.root_status) {
                Some(TraceExit::PtraceDenied) => r matches Err(TraceError::Permission(_)),
                Some(_) => r matches Err(TraceError::Io(_)),
                None => r is Ok,
            },
    {
        match self.tracker.root_status() {
            Some(status) => match TraceExit::from_status(status) {
                Some(exit) => Err(map_trace_exit(exit)),
                None => Ok(()),
            },
            None => Ok(()),
        }
    }

    fn forget(&mut self, pid: i32)
        ensures
            final(self).tracker == old(self).tracker,
            final(self).entering@ == old(self).entering@.remove(pid),
            final(self).pending@ == old(self).pending@.remove(pid),
            final(self).report == old(self).report,
    {
        self.entering.remove(&pid);
        self.pending.remove(&pid);
    }

    /// `pid` exited with `status`; once no tracee is left, how the trace
    /// ends.
    pub fn on_exited(&mut self, pid: i32, status: i32) -> (r: Option<Result<(), TraceError>>)
        requires
            old(self).wf(),
        ensures
            final(self).wf(),
            final(self).tracker.tracees@ == old(self).tracker.tracees@.remove(pid),
            final(self).tracker.root_status == if pid == old(self).tracker.root {
                Some(status)
            } else {
                old(self).tracker.root_status
            },
            final(self).report == old(self).report,
            !final(self).pending@.contains_key(pid),
            r is Some <==> final(self).tracker.tracees@.is_empty(),
            r matches Some(res) ==> match outcome_spec(final(self).tracker.root_status) {
                Some(TraceExit::PtraceDenied) => res matches Err(TraceError::Permission(_)),
                Some(_) => res matches Err(TraceError::Io(_)),
                None => res is Ok,
            },
    {
        self.tracker.on_exit(pid, Some(status));
        self.forget(pid);
        if self.tracker.is_done() {
            Some(self.finish())
        } else {
            None
        }
    }

    /// `pid` was killed by a signal; once no tracee is left, the trace
    /// ends, in error when the last one was the root.
    pub fn on_signaled(&mut self, pid: i32) -> (r: Option<Result<(), TraceError>>)
        requires
            old(self).wf(),
        ensures
            final(self).wf(),
            final(self).tracker.tracees@ == old(self).tracker.tracees@.remove(pid),
            final(self).report == old(self).report,
            r is Some <==> final(self).tracker.tracees@.is_empty(),
            r matches Some(res) ==> (res is Ok <==> pid != old(self).tracker.root),
            r matches Some(Err(e)) ==> e is UnexpectedExit,
    {
        self.tracker.on_exit(pid, None);
        self.forget(pid);
        if self.tracker.is_done() {
            if pid == self.tracker.root {
                Some(Err(TraceError::UnexpectedExit))
            } else {
                Some(Ok(()))
            }
        } else {
            None
        }
    }
}

pub const FAN_OPEN: u64 = 0x20;
pub const FAN_OPEN_EXEC: u64 = 0x1000;

/// The flags that a filesystem notification with `mask` records: none
/// unless it is an open, and exec as well for an open for execution.
pub fn fanotify_access(mask: u64) -> (r: Option<TraceAccess>)
    ensures
        r == if mask & (FAN_OPEN | FAN_OPEN_EXEC) == 0 {
            None
        } else {
            Some(TraceAccess { opened: true, executed: mask & FAN_OPEN_EXEC != 0, stat: false, link: false })
        },
{
    if mask & (FAN_OPEN | FAN_OPEN_EXEC) == 0 {
        return None;
    }
    let mut access = TraceAccess::opened();
    if mask & FAN_OPEN_EXEC != 0 {
        access.insert(TraceAccess::executed());
    }
    Some(access)
}

/// What one read of the notification channel gave.
#[derive(Debug)]
pub enum PollRead {
    Events(usize),
    WouldBlock,
    Failed(String),
}

/// The idle count after a poll that returned `count` events.
pub open spec fn idle_after(p: FanotifyPoll, count: usize) -> u32 {
    if count > 0 {
        0
    } else if p.child_done {
        if p.idle_loops == u32::MAX {
            u32::MAX
        } else {
            (p.idle_loops + 1) as u32
        }
    } else {
        p.idle_loops
    }
}

/// The polling loop of the filesystem-notification backend: it ends once
/// the child is gone and more than five polls in a row found nothing.
#[derive(Debug)]
pub struct FanotifyPoll {
    pub child_done: bool,
    pub idle_loops: u32,
}

pub const IDLE_POLLS: u32 = 5;

impl FanotifyPoll {
    pub fn new() -> (r: Self)
        ensures
            !r.child_done,
            r.idle_loops == 0,
    {
        FanotifyPoll { child_done: false, idle_loops: 0 }
    }

    /// A poll returned `count` events (zero for an empty or would-block
    /// read).
    pub fn on_events(&mut self, count: usize)
        ensures
            final(self).child_done == old(self).child_done,
            final(self).idle_loops == idle_after(*old(self), count),
    {
        if count > 0 {
            self.idle_loops = 0;
        } else if self.child_done {
            self.idle_loops = self.idle_loops.saturating_add(1);
        }
    }

    /// The child exited with `status`: an error for its set-up failure
    /// codes.
    pub fn on_child_exit(&mut self, status: i32) -> (r: Result<(), TraceError>)
        ensures
            final(self).child_done,
            final(self).idle_loops == old(self).idle_loops,
            match TraceExit::from_status_spec(status) {
                Some(TraceExit::PtraceDenied) => r matches Err(TraceError::Permission(_)),
                Some(_) => r matches Err(TraceError::Io(_)),
                None => r is Ok,
            },
    {
        self.child_done = true;
        match TraceExit::from_status(status) {
            Some(exit) => Err(map_trace_exit(exit)),
            None => Ok(()),
        }
    }

    /// The child was killed by a signal: the trace fails.
    pub fn on_child_signaled(&mut self) -> (r: Result<(), TraceError>)
        ensures
            final(self).child_done,
            final(self).idle_loops == old(self).idle_loops,
            r matches Err(TraceError::UnexpectedExit),
    {
        self.child_done = true;
        Err(TraceError::UnexpectedExit)
    }

    /// The outcome of one read of the notification channel: events are
    /// counted, a read that would block counts as an empty poll, and any
    /// other failure ends the trace.
    pub fn on_read(&mut self, read: PollRead) -> (r: Result<(), TraceError>)
        ensures
            final(self).child_done == old(self).child_done,
            match read {
                PollRead::Events(n) => r is Ok && final(self).idle_loops == idle_after(*old(self), n),
                PollRead::WouldBlock => r is Ok && final(self).idle_loops == idle_after(*old(self), 0),
                PollRead::Failed(m) => r matches Err(TraceError::Fanotify(x)) && x@ == m@
                    && final(self).idle_loops == old(self).idle_loops,
            },
    {
        match read {
            PollRead::Events(n) => {
                self.on_events(n);
                Ok(())
            },
            PollRead::WouldBlock => {
                self.on_events(0);
                Ok(())
            },
            PollRead::Failed(m) => Err(TraceError::Fanotify(m)),
        }
    }

    /// The child can no longer be waited for.
    pub fn on_child_gone(&mut self)
        ensures
            final(self).child_done,
            final(self).idle_loops == old(self).idle_loops,
    {
        self.child_done = true;
    }

    pub fn should_stop(&self) -> (r: bool)
        ensures
            r == (self.child_done && self.idle_loops > IDLE_POLLS),
    {
        self.child_done && self.idle_loops > IDLE_POLLS
    }
}

/// The syscall-level backend.
#[derive(Debug, Clone, Copy)]
pub struct PtraceBackend {}

impl PtraceBackend {
    pub fn new() -> (r: Self) {
        PtraceBackend {  }
    }
}

} // verus!
