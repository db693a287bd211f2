//! Bookkeeping of the runtime tracer: access flags, the report of
//! touched paths, and what each syscall stop contributes to it.
use vstd::prelude::*;
use crate::facts::{find_fact, lookup};

verus! {

broadcast use vstd::std_specs::hash::group_hash_axioms;

/// How a path was touched: opened, executed, stat'ed or read as a link.
#[derive(Debug, Clone, Copy, PartialEq, Eq, Structural)]
pub struct TraceAccess {
    pub opened: bool,
    pub executed: bool,
    pub stat: bool,
    pub link: bool,
}

impl TraceAccess {
    pub open spec fn union_spec(self, o: TraceAccess) -> TraceAccess {
        TraceAccess {
            opened: self.opened || o.opened,
            executed: self.executed || o.executed,
            stat: self.stat || o.stat,
            link: self.link || o.link,
        }
    }

    pub fn empty() -> (r: Self)
        ensures
            !r.opened && !r.executed && !r.stat && !r.link,
    {
        TraceAccess { opened: false, executed: false, stat: false, link: false }
    }

    pub fn opened() -> (r: Self)
        ensures
            r.opened && !r.executed && !r.stat && !r.link,
    {
        TraceAccess { opened: true, executed: false, stat: false, link: false }
    }

    pub fn executed() -> (r: Self)
        ensures
            !r.opened && r.executed && !r.stat && !r.link,
    {
        TraceAccess { opened: false, executed: true, stat: false, link: false }
    }

    pub fn stat() -> (r: Self)
        ensures
            !r.opened && !r.executed && r.stat && !r.link,
    {
        TraceAccess { opened: false, executed: false, stat: true, link: false }
    }

    pub fn link() -> (r: Self)
        ensures
            !r.opened && !r.executed && !r.stat && r.link,
    {
        TraceAccess { opened: false, executed: false, stat: false, link: true }
    }

    pub fn union(self, o: TraceAccess) -> (r: Self)
        ensures
            r == self.union_spec(o),
    {
        TraceAccess {
            opened: self.opened || o.opened,
            executed: self.executed || o.executed,
            stat: self.stat || o.stat,
            link: self.link || o.link,
        }
    }

    pub fn insert(&mut self, o: TraceAccess)
        ensures
            *final(self) == old(self).union_spec(o),
    {
        *self = self.union(o);
    }

    /// Whether every flag of `o` is set here.
    pub fn contains(self, o: TraceAccess) -> (r: bool)
        ensures
            r == ((o.opened ==> self.opened) && (o.executed ==> self.executed) && (o.stat ==> self.stat) && (
            o.link ==> self.link)),
    {
        (!o.opened || self.opened) && (!o.executed || self.executed) && (!o.stat || self.stat) && (!o.link
            || self.link)
    }

    pub fn is_empty(self) -> (r: bool)
        ensures
            r == (!self.opened && !self.executed && !self.stat && !self.link),
    {
        !self.opened && !self.executed && !self.stat && !self.link
    }
}

/// Paths touched by a traced program, each with the union of the ways it
/// was touched.
#[derive(Debug)]
pub struct TraceReport {
    pub files: Vec<(String, TraceAccess)>,
}

/// The keys of a list of pairs.
pub open spec fn keys_of<V>(s: Seq<(String, V)>) -> Seq<Seq<char>> {
    s.map_values(|e: (String, V)| e.0@)
}

/// The map that a list of pairs with distinct keys stands for.
pub open spec fn pairs_map(s: Seq<(String, TraceAccess)>) -> Map<Seq<char>, TraceAccess> {
    Map::new(|k: Seq<char>| lookup(s, k) is Some, |k: Seq<char>| lookup(s, k)->0)
}

/// The report after recording `access` for `path`.
pub open spec fn record_spec(m: Map<Seq<char>, TraceAccess>, path: Seq<char>, access: TraceAccess) -> Map<
    Seq<char>,
    TraceAccess,
> {
    m.insert(
        path,
        if m.contains_key(path) {
            m[path].union_spec(access)
        } else {
            access
        },
    )
}

/// Two reports merged: every path of either, with the union of its flags.
pub open spec fn merge_spec(a: Map<Seq<char>, TraceAccess>, b: Map<Seq<char>, TraceAccess>) -> Map<
    Seq<char>,
    TraceAccess,
> {
    Map::new(
        |k: Seq<char>| a.contains_key(k) || b.contains_key(k),
        |k: Seq<char>|
            if a.contains_key(k) && b.contains_key(k) {
                a[k].union_spec(b[k])
            } else if a.contains_key(k) {
                a[k]
            } else {
                b[k]
            },
    )
}

pub proof fn lemma_lookup_update<V>(s: Seq<(String, V)>, i: int, e: (String, V), k: Seq<char>)
    requires
        0 <= i < s.len(),
        keys_of(s).no_duplicates(),
        s[i].0@ == e.0@,
    ensures
        lookup(s.update(i, e), k) == if k == e.0@ {
            Some(e.1)
        } else {
            lookup(s, k)
        },
    decreases s.len(),
{
    let t = s.update(i, e);
    if i == s.len() - 1 {
        assert(t.drop_last() =~= s.drop_last());
        if k != e.0@ {
            assert(t.last().0@ == s.last().0@);
        }
    } else {
        assert(t.drop_last() =~= s.drop_last().update(i, e));
        assert(keys_of(s.drop_last()) =~= keys_of(s).drop_last());
        lemma_lookup_update(s.drop_last(), i, e, k);
        assert(keys_of(s)[i] != keys_of(s)[s.len() - 1]);
    }
}

pub proof fn lemma_lookup_some_index<V>(s: Seq<(String, V)>, k: Seq<char>)
    ensures
        lookup(s, k) is None <==> !keys_of(s).contains(k),
    decreases s.len(),
{
    if s.len() > 0 {
        lemma_lookup_some_index(s.drop_last(), k);
        assert(keys_of(s.drop_last()) =~= keys_of(s).drop_last());
        if keys_of(s).contains(k) && s.last().0@ != k {
            let j = choose|j: int| 0 <= j < keys_of(s).len() && keys_of(s)[j] == k;
            assert(keys_of(s.drop_last())[j] == k);
        }
        if keys_of(s.drop_last()).contains(k) {
            let j = choose|j: int| 0 <= j < keys_of(s.drop_last()).len() && keys_of(s.drop_last())[j] == k;
            assert(keys_of(s)[j] == k);
        }
        if s.last().0@ == k {
            assert(keys_of(s)[s.len() - 1] == k);
        }
    }
}

impl TraceReport {
    pub open spec fn view(&self) -> Map<Seq<char>, TraceAccess> {
        pairs_map(self.files@)
    }

    /// No path twice.
    pub open spec fn wf(&self) -> bool {
        keys_of(self.files@).no_duplicates()
    }

    pub fn new() -> (r: Self)
        ensures
            r.wf(),
            r.view() == Map::<Seq<char>, TraceAccess>::empty(),
    {
        let r = TraceReport { files: Vec::new() };
        assert(r.view() =~= Map::<Seq<char>, TraceAccess>::empty());
        r
    }

    pub fn is_empty(&self) -> (r: bool)
        requires
            self.wf(),
        ensures
            r == (self.view().dom() == Set::<Seq<char>>::empty()),
    {
        if self.files.len() == 0 {
            assert(self.view().dom() =~= Set::<Seq<char>>::empty());
            true
        } else {
            let ghost k = self.files@.last().0@;
            assert(self.view().dom().contains(k));
            false
        }
    }

    /// The flags recorded for `path`, if any.
    pub fn access_of(&self, path: &str) -> (r: Option<TraceAccess>)
        ensures
            match r {
                Some(a) => self.view().contains_key(path@) && self.view()[path@] == a,
                None => !self.view().contains_key(path@),
            },
    {
        match find_fact(&self.files, path) {
            Some(i) => Some(self.files[i].1),
            None => None,
        }
    }

    pub fn contains_path(&self, path: &str) -> (r: bool)
        ensures
            r == self.view().contains_key(path@),
    {
        find_fact(&self.files, path).is_some()
    }

    /// Adds `access` to the flags of `path`.
    pub fn record_path_with_access(&mut self, path: String, access: TraceAccess)
        requires
            old(self).wf(),
        ensures
            final(self).wf(),
            final(self).view() == record_spec(old(self).view(), path@, access),
    {
        let ghost m = self.view();
        match find_fact(&self.files, path.as_str()) {
            Some(i) => {
                let merged = self.files[i].1.union(access);
                let ghost s = self.files@;
                proof {
                    lemma_lookup_some_index(s, path@);
                }
                let ghost e = (path, merged);
                self.files.set(i, (path, merged));
                proof {
                    assert(keys_of(self.files@) =~= keys_of(s));
                    assert forall|k: Seq<char>| #[trigger] lookup(self.files@, k) == if k == e.0@ {
                        Some(e.1)
                    } else {
                        lookup(s, k)
                    } by {
                        lemma_lookup_update(s, i as int, e, k);
                    }
                    assert(self.view() =~= record_spec(m, e.0@, access));
                }
            },
            None => {
                let ghost s = self.files@;
                proof {
                    lemma_lookup_some_index(s, path@);
                }
                let ghost p = path@;
                self.files.push((path, access));
                proof {
                    assert(keys_of(self.files@) =~= keys_of(s).push(p));
                    assert(self.files@.drop_last() =~= s);
                    assert(self.view() =~= record_spec(m, p, access));
                }
            },
        }
    }

    /// Adds every path of `other` with its flags.
    pub fn extend(&mut self, other: TraceReport)
        requires
            old(self).wf(),
            other.wf(),
        ensures
            final(self).wf(),
            final(self).view() == merge_spec(old(self).view(), other.view()),
    {
        let ghost a = self.view();
        let ghost b = other.view();
        let mut i: usize = 0;
        let ghost os = other.files@;
        let mut rest = other.files;
        assert(merge_spec(a, pairs_map(os.subrange(0, 0))) =~= a);
        while i < rest.len()
            invariant
                self.wf(),
                rest@ == os,
                i <= os.len(),
                b == pairs_map(os),
                keys_of(os).no_duplicates(),
                self.view() == merge_spec(a, pairs_map(os.subrange(0, i as int))),
            decreases os.len() - i,
        {
            let (p, f) = (rest[i].0.clone(), rest[i].1);
            let ghost before = self.view();
            self.record_path_with_access(p, f);
            proof {
                let pre = os.subrange(0, i as int);
                let next = os.subrange(0, i + 1);
                assert(next.drop_last() =~= pre);
                assert(next.last() == os[i as int]);
                lemma_lookup_some_index(pre, os[i as int].0@);
                assert(!keys_of(pre).contains(os[i as int].0@)) by {
                    if keys_of(pre).contains(os[i as int].0@) {
                        let j = choose|j: int| 0 <= j < keys_of(pre).len() && keys_of(pre)[j] == os[i as int].0@;
                        assert(keys_of(os)[j] == keys_of(os)[i as int]);
                    }
                }
                assert(self.view() =~= merge_spec(a, pairs_map(next)));
            }
            i += 1;
        }
        proof {
            assert(os.subrange(0, os.len() as int) =~= os);
        }
    }
}

/// Recording the same path and flags twice leaves the report as one
/// recording does.
pub proof fn lemma_record_idempotent(m: Map<Seq<char>, TraceAccess>, path: Seq<char>, access: TraceAccess)
    ensures
        record_spec(record_spec(m, path, access), path, access) == record_spec(m, path, access),
{
    assert(record_spec(record_spec(m, path, access), path, access) =~= record_spec(m, path, access));
}

/// The order in which two reports are merged does not matter.
pub proof fn lemma_merge_commutes(a: Map<Seq<char>, TraceAccess>, b: Map<Seq<char>, TraceAccess>)
    ensures
        merge_spec(a, b) == merge_spec(b, a),
{
    assert(merge_spec(a, b) =~= merge_spec(b, a));
}

/// Merging is associative.
pub proof fn lemma_merge_associates(
    a: Map<Seq<char>, TraceAccess>,
    b: Map<Seq<char>, TraceAccess>,
    c: Map<Seq<char>, TraceAccess>,
)
    ensures
        merge_spec(merge_spec(a, b), c) == merge_spec(a, merge_spec(b, c)),
{
    assert(merge_spec(merge_spec(a, b), c) =~= merge_spec(a, merge_spec(b, c)));
}

pub const SYS_OPEN: i64 = 2;
pub const SYS_STAT: i64 = 4;
pub const SYS_LSTAT: i64 = 6;
pub const SYS_EXECVE: i64 = 59;
pub const SYS_READLINK: i64 = 89;
pub const SYS_OPENAT: i64 = 257;
pub const SYS_NEWFSTATAT: i64 = 262;
pub const SYS_READLINKAT: i64 = 267;
pub const SYS_STATX: i64 = 332;
pub const SYS_OPENAT2: i64 = 437;
pub const SYS_FACCESSAT2: i64 = 439;
pub const AT_FDCWD: i64 = -100;

/// The registers of a syscall stop that the tracer reads (x86_64).
#[derive(Debug, Clone, Copy)]
pub struct SyscallRegs {
    pub orig_rax: u64,
    pub rdi: u64,
    pub rsi: u64,
    pub rax: u64,
}

/// A path-taking syscall seen on entry and waiting for its result.
#[derive(Debug)]
pub struct PendingSyscall {
    pub path: String,
    pub access: TraceAccess,
}

/// Where a path-taking syscall keeps its path, relative to which
/// directory, and how it touches the file.
#[derive(Debug, Clone, Copy)]
pub struct PathProbe {
    pub dirfd: i64,
    pub addr: u64,
    pub is_at: bool,
    pub access: TraceAccess,
}

pub open spec fn access_spec(opened: bool, executed: bool, stat: bool, link: bool) -> TraceAccess {
    TraceAccess { opened, executed, stat, link }
}

/// The path argument of each recorded syscall other than `execve`.
pub open spec fn probe_spec(syscall: i64, regs: SyscallRegs) -> Option<PathProbe> {
    let at = |a: TraceAccess| Some(PathProbe { dirfd: regs.rdi as i64, addr: regs.rsi, is_at: true, access: a });
    let cwd = |a: TraceAccess| Some(PathProbe { dirfd: AT_FDCWD, addr: regs.rdi, is_at: false, access: a });
    if syscall == SYS_OPEN {
        cwd(access_spec(true, false, false, false))
    } else if syscall == SYS_STAT {
        cwd(access_spec(false, false, true, false))
    } else if syscall == SYS_LSTAT || syscall == SYS_READLINK {
        cwd(access_spec(false, false, false, true))
    } else if syscall == SYS_OPENAT || syscall == SYS_OPENAT2 {
        at(access_spec(true, false, false, false))
    } else if syscall == SYS_NEWFSTATAT || syscall == SYS_STATX || syscall == SYS_FACCESSAT2 {
        at(access_spec(false, false, true, false))
    } else if syscall == SYS_READLINKAT {
        at(access_spec(false, false, false, true))
    } else {
        None
    }
}

/// A path of an `...at` syscall is kept when it is absolute or taken
/// relative to the working directory.
pub open spec fn record_at_spec(dirfd: i64, path: Seq<char>) -> bool {
    crate::path::is_absolute(path) || dirfd == AT_FDCWD
}

/// The address of the path string that a syscall stop asks to read.
pub open spec fn path_address_spec(entering: bool, syscall: i64, regs: SyscallRegs) -> Option<u64> {
    if !entering {
        None
    } else if syscall == SYS_EXECVE {
        if regs.rdi == 0 {
            None
        } else {
            Some(regs.rdi)
        }
    } else {
        match probe_spec(syscall, regs) {
            Some(p) => if p.addr == 0 {
                None
            } else {
                Some(p.addr)
            },
            None => None,
        }
    }
}

pub open spec fn pending_view(m: Map<i32, PendingSyscall>) -> Map<i32, (Seq<char>, TraceAccess)> {
    m.map_values(|p: PendingSyscall| (p.path@, p.access))
}

/// One syscall stop of `pid`, with `path` the string read at the
/// address that `path_address_spec` gives (empty when none): `execve` is
/// recorded on entry; another path syscall is held on entry and recorded
/// at its exit only if it returned a non-negative value.
pub open spec fn syscall_step(
    pending: Map<i32, (Seq<char>, TraceAccess)>,
    report: Map<Seq<char>, TraceAccess>,
    pid: i32,
    entering: bool,
    syscall: i64,
    regs: SyscallRegs,
    path: Seq<char>,
) -> (Map<i32, (Seq<char>, TraceAccess)>, Map<Seq<char>, TraceAccess>) {
    if entering {
        if syscall == SYS_EXECVE {
            if regs.rdi != 0 && path.len() > 0 {
                (pending, record_spec(report, path, access_spec(false, true, false, false)))
            } else {
                (pending, report)
            }
        } else {
            match probe_spec(syscall, regs) {
                Some(p) => if p.addr != 0 && path.len() > 0 && (!p.is_at || record_at_spec(
                    p.dirfd,
                    path,
                )) {
                    (pending.insert(pid, (path, p.access)), report)
                } else {
                    (pending, report)
                },
                None => (pending, report),
            }
        }
    } else if pending.contains_key(pid) && regs.rax as i64 >= 0 {
        (pending.remove(pid), record_spec(report, pending[pid].0, pending[pid].1))
    } else {
        (pending.remove(pid), report)
    }
}

pub fn should_record_at_path(dirfd: i64, path: &str) -> (r: bool)
    ensures
        r == record_at_spec(dirfd, path@),
{
    if crate::path::is_absolute_str(path) {
        return true;
    }
    dirfd == AT_FDCWD
}

pub fn probe_for(syscall: i64, regs: &SyscallRegs) -> (r: Option<PathProbe>)
    ensures
        r == probe_spec(syscall, *regs),
{
    let at = PathProbe { dirfd: regs.rdi as i64, addr: regs.rsi, is_at: true, access: TraceAccess::empty() };
    let cwd = PathProbe { dirfd: AT_FDCWD, addr: regs.rdi, is_at: false, access: TraceAccess::empty() };
    if syscall == SYS_OPEN {
        Some(PathProbe { access: TraceAccess::opened(), ..cwd })
    } else if syscall == SYS_STAT {
        Some(PathProbe { access: TraceAccess::stat(), ..cwd })
    } else if syscall == SYS_LSTAT || syscall == SYS_READLINK {
        Some(PathProbe { access: TraceAccess::link(), ..cwd })
    } else if syscall == SYS_OPENAT || syscall == SYS_OPENAT2 {
        Some(PathProbe { access: TraceAccess::opened(), ..at })
    } else if syscall == SYS_NEWFSTATAT || syscall == SYS_STATX || syscall == SYS_FACCESSAT2 {
        Some(PathProbe { access: TraceAccess::stat(), ..at })
    } else if syscall == SYS_READLINKAT {
        Some(PathProbe { access: TraceAccess::link(), ..at })
    } else {
        None
    }
}

/// The address of the path to read from the tracee at this stop, if any.
pub fn syscall_path_address(entering: bool, syscall: i64, regs: &SyscallRegs) -> (r: Option<u64>)
    ensures
        r == path_address_spec(entering, syscall, *regs),
{
    if !entering {
        None
    } else if syscall == SYS_EXECVE {
        if regs.rdi == 0 {
            None
        } else {
            Some(regs.rdi)
        }
    } else {
        match probe_for(syscall, regs) {
            Some(p) => if p.addr == 0 {
                None
            } else {
                Some(p.addr)
            },
            None => None,
        }
    }
}

/// Applies one syscall stop of `pid` to the pending table and the report;
/// `path` is the string read at `syscall_path_address`, empty when there
/// was nothing to read.
pub fn handle_syscall_regs(
    pid: i32,
    entering: bool,
    syscall: i64,
    regs: &SyscallRegs,
    pending: &mut std::collections::HashMap<i32, PendingSyscall>,
    report: &mut TraceReport,
    path: &str,
)
    requires
        old(report).wf(),
    ensures
        final(report).wf(),
        (pending_view(final(pending)@), final(report).view()) == syscall_step(
            pending_view(old(pending)@),
            old(report).view(),
            pid,
            entering,
            syscall,
            *regs,
            path@,
        ),
{
    let ghost pv = pending_view(pending@);
    if entering {
        if syscall == SYS_EXECVE {
            if regs.rdi == 0 {
                return;
            }
            if path.unicode_len() > 0 {
                report.record_path_with_access(path.to_owned(), TraceAccess::executed());
            }
            return;
        }
        let probe = match probe_for(syscall, regs) {
            Some(p) => p,
            None => {
                return;
            },
        };
        if probe.addr == 0 || path.unicode_len() == 0 {
            return;
        }
        if probe.is_at && !should_record_at_path(probe.dirfd, path) {
            return;
        }
        let entry = PendingSyscall { path: path.to_owned(), access: probe.access };
        pending.insert(pid, entry);
        proof {
            assert(pending_view(pending@) =~= pv.insert(pid, (path@, probe.access)));
        }
        return;
    }
    let removed = pending.remove(&pid);
    proof {
        assert(pending_view(pending@) =~= pv.remove(pid));
    }
    match removed {
        Some(p) => {
            if regs.rax as i64 >= 0 {
                report.record_path_with_access(p.path, p.access);
            }
        },
        None => {},
    }
}

/// A path syscall that failed is not recorded: entry and then exit with
/// a negative return leave a path that was not in the report out of it.
pub proof fn lemma_failed_syscall_not_recorded(
    pending: Map<i32, (Seq<char>, TraceAccess)>,
    report: Map<Seq<char>, TraceAccess>,
    pid: i32,
    syscall: i64,
    entry_regs: SyscallRegs,
    exit_regs: SyscallRegs,
    path: Seq<char>,
)
    requires
        syscall != SYS_EXECVE,
        !report.contains_key(path),
        (exit_regs.rax as i64) < 0,
    ensures
        ({
            let (held, seen) = syscall_step(pending, report, pid, true, syscall, entry_regs, path);
            let (held_after, seen_after) = syscall_step(held, seen, pid, false, syscall, exit_regs, Seq::empty());
            !seen_after.contains_key(path) && seen_after == report
        }),
{
}

/// An `...at` syscall whose directory is not the working directory and
/// whose path is relative leaves nothing to record.
pub proof fn lemma_relative_at_path_ignored(
    pending: Map<i32, (Seq<char>, TraceAccess)>,
    report: Map<Seq<char>, TraceAccess>,
    pid: i32,
    syscall: i64,
    regs: SyscallRegs,
    path: Seq<char>,
)
    requires
        probe_spec(syscall, regs) matches Some(p) && p.is_at,
        syscall != SYS_EXECVE,
        regs.rdi as i64 != AT_FDCWD,
        !crate::path::is_absolute(path),
    ensures
        syscall_step(pending, report, pid, true, syscall, regs, path) == (pending, report),
{
}

/// `execve` is recorded at its entry, with no exit to wait for.
pub proof fn lemma_execve_recorded_on_entry(
    pending: Map<i32, (Seq<char>, TraceAccess)>,
    report: Map<Seq<char>, TraceAccess>,
    pid: i32,
    regs: SyscallRegs,
    path: Seq<char>,
)
    requires
        regs.rdi != 0,
        path.len() > 0,
    ensures
        ({
            let (held, seen) = syscall_step(pending, report, pid, true, SYS_EXECVE, regs, path);
            held == pending && seen.contains_key(path) && seen[path].executed
        }),
{
}

/// The bytes of a word read from tracee memory, lowest address first.
pub open spec fn word_bytes(word: u64) -> Seq<u8> {
    Seq::new(8, |i: int| ((word >> (8 * i) as u64) & 0xff) as u8)
}

/// Index of the first NUL byte of `b`.
pub open spec fn first_nul(b: Seq<u8>) -> Option<int>
    decreases b.len(),
{
    if b.len() == 0 {
        None
    } else if b[0] == 0 {
        Some(0)
    } else {
        match first_nul(b.drop_first()) {
            Some(i) => Some(i + 1),
            None => None,
        }
    }
}

proof fn lemma_first_nul_at(b: Seq<u8>, i: int)
    requires
        0 <= i < b.len(),
        b[i] == 0,
        forall|j: int| 0 <= j < i ==> b[j] != 0,
    ensures
        first_nul(b) == Some(i),
    decreases i,
{
    if i > 0 {
        lemma_first_nul_at(b.drop_first(), i - 1);
    }
}

proof fn lemma_first_nul_none(b: Seq<u8>)
    requires
        forall|j: int| 0 <= j < b.len() ==> b[j] != 0,
    ensures
        first_nul(b) is None,
    decreases b.len(),
{
    if b.len() > 0 {
        lemma_first_nul_none(b.drop_first());
    }
}

/// Appends the bytes of a word of a string read from the tracee, up to
/// its NUL; whether the NUL was in this word.
pub fn take_word(word: u64, acc: &mut Vec<u8>) -> (done: bool)
    requires
        old(acc)@.len() + 8 <= usize::MAX,
    ensures
        match first_nul(word_bytes(word)) {
            Some(k) => done && final(acc)@ == old(acc)@ + word_bytes(word).subrange(0, k),
            None => !done && final(acc)@ == old(acc)@ + word_bytes(word),
        },
{
    let ghost w = word_bytes(word);
    let mut i: u64 = 0;
    while i < 8
        invariant
            i <= 8,
            w == word_bytes(word),
            old(acc)@.len() + 8 <= usize::MAX,
            acc@ == old(acc)@ + w.subrange(0, i as int),
            forall|j: int| 0 <= j < i ==> w[j] != 0,
        decreases 8 - i,
    {
        let byte = ((word >> (8 * i)) & 0xff) as u8;
        assert(byte == w[i as int]);
        if byte == 0 {
            proof {
                lemma_first_nul_at(w, i as int);
            }
            return true;
        }
        acc.push(byte);
        assert(w.subrange(0, i + 1) =~= w.subrange(0, i as int).push(byte));
        i += 1;
    }
    proof {
        lemma_first_nul_none(w);
        assert(w.subrange(0, 8) =~= w);
    }
    false
}

} // verus!
