use std::collections::HashMap;

use sidebundle::env::{env_block, merge_env, name_lt};

use sidebundle::session::{
    fanotify_access, map_trace_exit, FanotifyPoll, PollRead, TraceError, TraceExit, TraceSession,
    TraceeTracker, FAN_OPEN, FAN_OPEN_EXEC, SIGSTOP, SIGTRAP,
};
use sidebundle::trace::{
    handle_syscall_regs, should_record_at_path, syscall_path_address, take_word, SyscallRegs, TraceAccess,
    TraceReport, AT_FDCWD, SYS_EXECVE, SYS_OPENAT, SYS_STATX,
};

fn regs_for(syscall: i64) -> SyscallRegs {
    SyscallRegs { orig_rax: syscall as u64, rdi: 0, rsi: 0, rax: 0 }
}

const ENOENT: i64 = 2;

#[test]
fn at_path_filter_allows_absolute_paths() {
    assert!(should_record_at_path(123, "/usr/lib/libc.so.6"));
}

#[test]
fn at_path_filter_rejects_relative_with_non_cwd_dirfd() {
    assert!(!should_record_at_path(3, "encodings/__init__.py"));
}

#[test]
fn at_path_filter_allows_relative_with_at_fdcwd() {
    assert!(should_record_at_path(AT_FDCWD, "encodings/__init__.py"));
}

#[test]
fn ptrace_records_only_successful_probe_syscalls() {
    let pid = 1234;
    let mut pending = HashMap::new();
    let mut report = TraceReport::new();

    let mut regs = regs_for(SYS_STATX);
    regs.rdi = AT_FDCWD as u64;
    regs.rsi = 0x1000;
    handle_syscall_regs(pid, true, SYS_STATX, &regs, &mut pending, &mut report, "encodings/__init__.py");

    let mut regs_exit = regs_for(SYS_STATX);
    regs_exit.rax = (-ENOENT) as u64;
    handle_syscall_regs(pid, false, SYS_STATX, &regs_exit, &mut pending, &mut report, "");
    assert!(report.is_empty());

    let mut regs = regs_for(SYS_STATX);
    regs.rdi = AT_FDCWD as u64;
    regs.rsi = 0x2000;
    handle_syscall_regs(pid, true, SYS_STATX, &regs, &mut pending, &mut report, "encodings/__init__.py");

    let mut regs_exit = regs_for(SYS_STATX);
    regs_exit.rax = 0;
    handle_syscall_regs(pid, false, SYS_STATX, &regs_exit, &mut pending, &mut report, "");
    assert!(report.contains_path("encodings/__init__.py"));
}

#[test]
fn tracee_tracker_adds_and_removes_pids_until_done() {
    let root = 1;
    let mut tracker = TraceeTracker::new(root);
    assert!(!tracker.is_done());

    let child = 2;
    tracker.ensure_tracee(child);
    assert!(!tracker.is_done());

    tracker.on_exit(child, Some(0));
    assert!(!tracker.is_done());

    tracker.on_exit(root, Some(0));
    assert!(tracker.is_done());
    assert_eq!(tracker.root_status(), Some(0));
}

#[test]
fn pending_probe_syscalls_are_isolated_per_pid() {
    let pid_a = 111;
    let pid_b = 222;
    let mut pending = HashMap::new();
    let mut report = TraceReport::new();

    let mut regs_a = regs_for(SYS_STATX);
    regs_a.rdi = AT_FDCWD as u64;
    regs_a.rsi = 0x1000;
    handle_syscall_regs(pid_a, true, SYS_STATX, &regs_a, &mut pending, &mut report, "a.py");

    let mut regs_b = regs_for(SYS_STATX);
    regs_b.rdi = AT_FDCWD as u64;
    regs_b.rsi = 0x2000;
    handle_syscall_regs(pid_b, true, SYS_STATX, &regs_b, &mut pending, &mut report, "b.py");

    let mut regs_exit_a = regs_for(SYS_STATX);
    regs_exit_a.rax = 0;
    handle_syscall_regs(pid_a, false, SYS_STATX, &regs_exit_a, &mut pending, &mut report, "");
    assert!(report.contains_path("a.py"));
    assert!(!report.contains_path("b.py"));

    let mut regs_exit_b = regs_for(SYS_STATX);
    regs_exit_b.rax = 0;
    handle_syscall_regs(pid_b, false, SYS_STATX, &regs_exit_b, &mut pending, &mut report, "");
    assert!(report.contains_path("b.py"));
}

#[test]
fn recording_twice_equals_recording_once() {
    let mut once = TraceReport::new();
    once.record_path_with_access("/etc/hostname".to_string(), TraceAccess::opened());
    let mut twice = TraceReport::new();
    twice.record_path_with_access("/etc/hostname".to_string(), TraceAccess::opened());
    twice.record_path_with_access("/etc/hostname".to_string(), TraceAccess::opened());
    assert_eq!(once.files.len(), 1);
    assert_eq!(twice.files.len(), 1);
    assert_eq!(once.access_of("/etc/hostname"), twice.access_of("/etc/hostname"));
}

#[test]
fn flags_of_a_path_are_merged() {
    let mut r = TraceReport::new();
    r.record_path_with_access("/bin/cat".to_string(), TraceAccess::executed());
    r.record_path_with_access("/bin/cat".to_string(), TraceAccess::stat());
    let a = r.access_of("/bin/cat").unwrap();
    assert!(a.executed && a.stat && !a.opened && !a.link);
    let mut other = TraceReport::new();
    other.record_path_with_access("/bin/cat".to_string(), TraceAccess::opened());
    other.record_path_with_access("/etc/hostname".to_string(), TraceAccess::opened());
    r.extend(other);
    assert_eq!(r.files.len(), 2);
    let a = r.access_of("/bin/cat").unwrap();
    assert!(a.executed && a.stat && a.opened);
    assert!(r.access_of("/etc/hostname").unwrap().contains(TraceAccess::opened()));
}

#[test]
fn failed_syscall_is_not_recorded() {
    let mut pending = HashMap::new();
    let mut report = TraceReport::new();
    let mut regs = regs_for(SYS_OPENAT);
    regs.rdi = AT_FDCWD as u64;
    regs.rsi = 0x10;
    handle_syscall_regs(7, true, SYS_OPENAT, &regs, &mut pending, &mut report, "/etc/missing");
    let mut exit = regs_for(SYS_OPENAT);
    exit.rax = (-ENOENT) as u64;
    handle_syscall_regs(7, false, SYS_OPENAT, &exit, &mut pending, &mut report, "");
    assert!(!report.contains_path("/etc/missing"));
    assert!(pending.is_empty());
}

#[test]
fn relative_openat_from_other_directory_is_ignored() {
    let mut pending = HashMap::new();
    let mut report = TraceReport::new();
    let mut regs = regs_for(SYS_OPENAT);
    regs.rdi = 3;
    regs.rsi = 0x10;
    handle_syscall_regs(7, true, SYS_OPENAT, &regs, &mut pending, &mut report, "lib/x.so");
    assert!(pending.is_empty());
    let mut exit = regs_for(SYS_OPENAT);
    exit.rax = 4;
    handle_syscall_regs(7, false, SYS_OPENAT, &exit, &mut pending, &mut report, "");
    assert!(report.is_empty());
}

#[test]
fn execve_is_recorded_at_entry() {
    let mut pending = HashMap::new();
    let mut report = TraceReport::new();
    let mut regs = regs_for(SYS_EXECVE);
    regs.rdi = 0x4000;
    assert_eq!(syscall_path_address(true, SYS_EXECVE, &regs), Some(0x4000));
    handle_syscall_regs(9, true, SYS_EXECVE, &regs, &mut pending, &mut report, "/bin/true");
    assert!(report.access_of("/bin/true").unwrap().executed);
    assert!(pending.is_empty());
}

#[test]
fn trace_of_cat_keeps_opened_file_and_drops_missing_ones() {
    let mut s = TraceSession::new(50);
    assert_eq!(s.on_stopped(50, SIGSTOP), None);
    let mut exec = regs_for(SYS_EXECVE);
    exec.rdi = 0x100;
    s.on_syscall_stop(50, SYS_EXECVE, &exec, "/bin/cat");
    s.on_syscall_stop(50, SYS_EXECVE, &regs_for(SYS_EXECVE), "");
    let mut open = regs_for(SYS_OPENAT);
    open.rdi = AT_FDCWD as u64;
    open.rsi = 0x200;
    s.on_syscall_stop(50, SYS_OPENAT, &open, "/etc/ld.so.preload");
    let mut fail = regs_for(SYS_OPENAT);
    fail.rax = (-ENOENT) as u64;
    s.on_syscall_stop(50, SYS_OPENAT, &fail, "");
    s.on_syscall_stop(50, SYS_OPENAT, &open, "/etc/hostname");
    let mut ok = regs_for(SYS_OPENAT);
    ok.rax = 3;
    s.on_syscall_stop(50, SYS_OPENAT, &ok, "");
    assert!(s.on_exited(50, 0).unwrap().is_ok());
    assert!(s.report.access_of("/etc/hostname").unwrap().opened);
    assert!(s.report.access_of("/bin/cat").unwrap().executed);
    assert!(!s.report.contains_path("/etc/ld.so.preload"));
}

#[test]
fn forked_child_exec_is_followed() {
    let mut s = TraceSession::new(100);
    s.on_stopped(100, SIGSTOP);
    s.on_new_tracee(100, 101);
    assert!(s.entering_of(101));
    let mut exec = regs_for(SYS_EXECVE);
    exec.rdi = 0x500;
    s.on_syscall_stop(101, SYS_EXECVE, &exec, "/bin/true");
    assert!(!s.entering_of(101));
    assert!(s.on_exited(101, 0).is_none());
    assert!(s.on_exited(100, 0).unwrap().is_ok());
    assert!(s.report.access_of("/bin/true").unwrap().executed);
}

#[test]
fn stop_signals_are_forwarded_except_trace_ones() {
    let mut s = TraceSession::new(5);
    assert_eq!(s.on_stopped(5, SIGTRAP), None);
    assert_eq!(s.on_stopped(5, SIGSTOP), None);
    assert_eq!(s.on_stopped(5, 10), Some(10));
}

#[test]
fn child_setup_failures_map_to_errors() {
    assert_eq!(TraceExit::from_status(40), Some(TraceExit::ChrootFailure));
    assert_eq!(TraceExit::from_status(41), Some(TraceExit::PtraceDenied));
    assert_eq!(TraceExit::from_status(42), Some(TraceExit::ExecFailure));
    assert_eq!(TraceExit::from_status(0), None);
    assert!(matches!(map_trace_exit(TraceExit::PtraceDenied), TraceError::Permission(_)));
    assert!(matches!(map_trace_exit(TraceExit::ChrootFailure), TraceError::Io(_)));
    let mut s = TraceSession::new(8);
    assert!(matches!(s.on_exited(8, 41), Some(Err(TraceError::Permission(_)))));
    let mut t = TraceSession::new(9);
    assert!(matches!(t.on_signaled(9), Some(Err(TraceError::UnexpectedExit))));
}

#[test]
fn fanotify_masks_give_open_and_exec() {
    assert_eq!(fanotify_access(0), None);
    let a = fanotify_access(FAN_OPEN).unwrap();
    assert!(a.opened && !a.executed);
    let b = fanotify_access(FAN_OPEN_EXEC).unwrap();
    assert!(b.opened && b.executed);
}

#[test]
fn fanotify_poll_drains_after_child_exit() {
    let mut p = FanotifyPoll::new();
    p.on_events(0);
    assert_eq!(p.idle_loops, 0);
    assert!(p.on_child_exit(0).is_ok());
    for _ in 0..5 {
        p.on_events(0);
        assert!(!p.should_stop());
    }
    p.on_events(3);
    assert_eq!(p.idle_loops, 0);
    for _ in 0..6 {
        p.on_events(0);
    }
    assert!(p.should_stop());
}

#[test]
fn traced_environment_is_merged_and_sorted() {
    let inherited = vec![
        ("PATH".to_string(), "/bin".to_string()),
        ("HOME".to_string(), "/root".to_string()),
        ("LANG".to_string(), "C".to_string()),
    ];
    let overrides = vec![("LANG".to_string(), "C.UTF-8".to_string()), ("AA".to_string(), "1".to_string())];
    let merged = merge_env(&inherited, &overrides);
    assert_eq!(
        env_block(&merged),
        vec!["AA=1", "HOME=/root", "LANG=C.UTF-8", "PATH=/bin"]
    );
    assert!(name_lt("AB", "B"));
    assert!(name_lt("A", "AB"));
    assert!(!name_lt("B", "AB"));
    assert!(!name_lt("A", "A"));
}

#[test]
fn tracee_strings_stop_at_nul() {
    let mut acc = Vec::new();
    let word = u64::from_le_bytes(*b"/etc/hos");
    assert!(!take_word(word, &mut acc));
    let word = u64::from_le_bytes(*b"tname\0zz");
    assert!(take_word(word, &mut acc));
    assert_eq!(acc, b"/etc/hostname".to_vec());
}

#[test]
fn fanotify_child_killed_or_read_failure_end_the_trace() {
    let mut p = FanotifyPoll::new();
    assert!(p.on_read(PollRead::WouldBlock).is_ok());
    assert!(p.on_read(PollRead::Events(2)).is_ok());
    assert!(matches!(p.on_read(PollRead::Failed("EBADF".to_string())), Err(TraceError::Fanotify(m)) if m == "EBADF"));
    assert!(matches!(p.on_child_signaled(), Err(TraceError::UnexpectedExit)));
    assert!(p.child_done);
}

#[test]
fn new_tracee_keeps_parent_syscall_phase() {
    let mut s = TraceSession::new(1);
    let mut exec = regs_for(SYS_EXECVE);
    exec.rdi = 0x10;
    s.on_syscall_stop(1, SYS_EXECVE, &exec, "/bin/sh");
    assert!(!s.entering_of(1));
    s.on_new_tracee(1, 2);
    assert!(!s.entering_of(1));
    assert!(s.entering_of(2));
}
