//! The initial stack that the userland re-exec hands to a program:
//! argument and environment strings, the auxiliary vector, and the
//! pointer arrays below them, laid out as the kernel would.
use vstd::prelude::*;

verus! {

pub const AT_NULL: u64 = 0;
pub const AT_PHDR: u64 = 3;
pub const AT_PHENT: u64 = 4;
pub const AT_PHNUM: u64 = 5;
pub const AT_PAGESZ: u64 = 6;
pub const AT_BASE: u64 = 7;
pub const AT_FLAGS: u64 = 8;
pub const AT_ENTRY: u64 = 9;
pub const AT_UID: u64 = 11;
pub const AT_EUID: u64 = 12;
pub const AT_GID: u64 = 13;
pub const AT_EGID: u64 = 14;
pub const AT_PLATFORM: u64 = 15;
pub const AT_HWCAP: u64 = 16;
pub const AT_CLKTCK: u64 = 17;
pub const AT_SECURE: u64 = 23;
pub const AT_RANDOM: u64 = 25;
pub const AT_EXECFN: u64 = 31;

/// The auxiliary vector entries, from the highest address down.
pub open spec fn canonical_aux_tags() -> Seq<u64> {
    seq![
        AT_PLATFORM,
        AT_EXECFN,
        AT_SECURE,
        AT_RANDOM,
        AT_CLKTCK,
        AT_HWCAP,
        AT_EGID,
        AT_GID,
        AT_EUID,
        AT_UID,
        AT_ENTRY,
        AT_FLAGS,
        AT_BASE,
        AT_PAGESZ,
        AT_PHNUM,
        AT_PHENT,
        AT_PHDR,
    ]
}

/// What a trace recorded of the auxiliary vector.
#[derive(Debug)]
pub struct AuxSnapshot {
    pub entries: Vec<(u64, u64)>,
    pub platform: Option<String>,
    pub random: Option<[u8; 16]>,
}

/// The value of the first entry with `tag`.
pub open spec fn first_value(s: Seq<(u64, u64)>, tag: u64) -> Option<u64>
    decreases s.len(),
{
    if s.len() == 0 {
        None
    } else if s[0].0 == tag {
        Some(s[0].1)
    } else {
        first_value(s.drop_first(), tag)
    }
}

impl AuxSnapshot {
    pub fn new(entries: Vec<(u64, u64)>) -> (r: Self)
        ensures
            r.entries == entries,
            r.platform is None,
            r.random is None,
    {
        AuxSnapshot { entries, platform: None, random: None }
    }

    pub fn with_platform(self, platform: Option<String>) -> (r: Self)
        ensures
            r.entries == self.entries,
            r.platform == platform,
            r.random == self.random,
    {
        AuxSnapshot { platform, ..self }
    }

    pub fn with_random(self, random: Option<[u8; 16]>) -> (r: Self)
        ensures
            r.entries == self.entries,
            r.platform == self.platform,
            r.random == random,
    {
        AuxSnapshot { random, ..self }
    }

    pub fn value(&self, tag: u64) -> (r: Option<u64>)
        ensures
            r == first_value(self.entries@, tag),
    {
        let mut i: usize = 0;
        assert(self.entries@.subrange(0, self.entries@.len() as int) =~= self.entries@);
        while i < self.entries.len()
            invariant
                i <= self.entries@.len(),
                first_value(self.entries@, tag) == first_value(
                    self.entries@.subrange(i as int, self.entries@.len() as int),
                    tag,
                ),
            decreases self.entries@.len() - i,
        {
            let ghost rest = self.entries@.subrange(i as int, self.entries@.len() as int);
            assert(rest.drop_first() =~= self.entries@.subrange(i + 1, self.entries@.len() as int));
            if self.entries[i].0 == tag {
                return Some(self.entries[i].1);
            }
            i += 1;
        }
        None
    }

    pub fn platform(&self) -> (r: Option<&str>)
        ensures
            match r {
                Some(p) => self.platform matches Some(q) && p@ == q@,
                None => self.platform is None,
            },
    {
        match &self.platform {
            Some(p) => Some(p.as_str()),
            None => None,
        }
    }

    pub fn random(&self) -> (r: Option<[u8; 16]>)
        ensures
            r == self.random,
    {
        self.random
    }
}

/// The process's own values, used for tags that the snapshot lacks.
#[derive(Debug, Clone, Copy)]
pub struct AuxValues {
    pub secure: u64,
    pub clktck: u64,
    pub hwcap: u64,
    pub egid: u64,
    pub gid: u64,
    pub euid: u64,
    pub uid: u64,
    pub pagesz: u64,
}

pub open spec fn pick(snapshot: Option<&AuxSnapshot>, tag: u64, live: u64) -> u64 {
    match snapshot {
        Some(s) => match first_value(s.entries@, tag) {
            Some(v) => v,
            None => live,
        },
        None => live,
    }
}

fn aux_value(snapshot: Option<&AuxSnapshot>, tag: u64, live: u64) -> (r: u64)
    ensures
        r == pick(snapshot, tag, live),
{
    match snapshot {
        Some(s) => match s.value(tag) {
            Some(v) => v,
            None => live,
        },
        None => live,
    }
}

impl AuxValues {
    /// Each value from the snapshot when it records the tag, else the
    /// process's own.
    pub fn resolve(snapshot: Option<&AuxSnapshot>, live: &AuxValues) -> (r: AuxValues)
        ensures
            r.secure == pick(snapshot, AT_SECURE, live.secure),
            r.clktck == pick(snapshot, AT_CLKTCK, live.clktck),
            r.hwcap == pick(snapshot, AT_HWCAP, live.hwcap),
            r.egid == pick(snapshot, AT_EGID, live.egid),
            r.gid == pick(snapshot, AT_GID, live.gid),
            r.euid == pick(snapshot, AT_EUID, live.euid),
            r.uid == pick(snapshot, AT_UID, live.uid),
            r.pagesz == pick(snapshot, AT_PAGESZ, live.pagesz),
    {
        AuxValues {
            secure: aux_value(snapshot, AT_SECURE, live.secure),
            clktck: aux_value(snapshot, AT_CLKTCK, live.clktck),
            hwcap: aux_value(snapshot, AT_HWCAP, live.hwcap),
            egid: aux_value(snapshot, AT_EGID, live.egid),
            gid: aux_value(snapshot, AT_GID, live.gid),
            euid: aux_value(snapshot, AT_EUID, live.euid),
            uid: aux_value(snapshot, AT_UID, live.uid),
            pagesz: aux_value(snapshot, AT_PAGESZ, live.pagesz),
        }
    }
}

/// What the stack needs from the program's ELF header.
#[derive(Debug, Clone, Copy)]
pub struct ElfHeaderInfo {
    pub e_entry: u64,
    pub e_phoff: u64,
    pub e_phnum: u16,
    pub e_phentsize: u16,
}

/// The stack from its lowest address up: the words (argc, argv, envp,
/// auxv), zero padding, then the strings, ending at the stack's top.
#[derive(Debug)]
pub struct StackImage {
    pub words: Vec<u64>,
    pub padding: usize,
    pub strings: Vec<u8>,
}

/// Total length of a list of byte strings.
pub open spec fn total_len(s: Seq<Vec<u8>>) -> nat
    decreases s.len(),
{
    if s.len() == 0 {
        0
    } else {
        total_len(s.drop_last()) + s.last()@.len()
    }
}

proof fn lemma_total_len_prefix(s: Seq<Vec<u8>>, i: int)
    requires
        0 <= i <= s.len(),
    ensures
        total_len(s.subrange(0, i)) <= total_len(s),
    decreases s.len() - i,
{
    if i < s.len() {
        lemma_total_len_step(s, i);
        lemma_total_len_prefix(s, i + 1);
    } else {
        assert(s.subrange(0, i) =~= s);
    }
}

proof fn lemma_total_len_step(s: Seq<Vec<u8>>, i: int)
    requires
        0 <= i < s.len(),
    ensures
        total_len(s.subrange(0, i + 1)) == total_len(s.subrange(0, i)) + s[i]@.len(),
{
    assert(s.subrange(0, i + 1).drop_last() =~= s.subrange(0, i));
}

/// The auxiliary vector as the stack holds it, lowest address first:
/// the canonical entries from the last to the first, then `AT_NULL`.
pub open spec fn aux_tags_in_memory() -> Seq<u64> {
    seq![
        AT_PHDR,
        AT_PHENT,
        AT_PHNUM,
        AT_PAGESZ,
        AT_BASE,
        AT_FLAGS,
        AT_ENTRY,
        AT_UID,
        AT_EUID,
        AT_GID,
        AT_EGID,
        AT_HWCAP,
        AT_CLKTCK,
        AT_RANDOM,
        AT_SECURE,
        AT_EXECFN,
        AT_PLATFORM,
        AT_NULL,
    ]
}

/// The order in memory is the canonical order read upwards, closed by
/// `AT_NULL`.
pub proof fn lemma_aux_order()
    ensures
        aux_tags_in_memory() == canonical_aux_tags().reverse().push(AT_NULL),
{
    assert(aux_tags_in_memory() =~= canonical_aux_tags().reverse().push(AT_NULL));
}

/// Appends `s` and a terminating NUL.
fn push_cstr(dst: &mut Vec<u8>, s: &Vec<u8>)
    requires
        old(dst)@.len() + s@.len() + 1 <= usize::MAX,
    ensures
        final(dst)@ == old(dst)@ + s@ + seq![0u8],
{
    let mut i: usize = 0;
    while i < s.len()
        invariant
            i <= s@.len(),
            old(dst)@.len() + s@.len() + 1 <= usize::MAX,
            dst@ == old(dst)@ + s@.subrange(0, i as int),
        decreases s@.len() - i,
    {
        dst.push(s[i]);
        assert(s@.subrange(0, i + 1) =~= s@.subrange(0, i as int).push(s@[i as int]));
        i += 1;
    }
    dst.push(0u8);
    assert(s@.subrange(0, s@.len() as int) =~= s@);
}

/// The room the strings of a stack take.
pub open spec fn strings_room(path: Seq<u8>, args: Seq<Vec<u8>>, env: Seq<Vec<u8>>, platform: Seq<u8>) -> nat {
    16 + platform.len() + 1 + total_len(args) + args.len() + total_len(env) + env.len() + path.len()
        + 1
}

/// `s` and its NUL lie at address `addr` of the strings that end at `top`.
pub open spec fn cstr_at(strings: Seq<u8>, top: int, addr: int, s: Seq<u8>) -> bool {
    let off = addr - (top - strings.len());
    0 <= off && off + s.len() + 1 <= strings.len() && strings.subrange(off, off + s.len() + 1)
        == s.push(0u8)
}

/// The value word of the `k`-th auxiliary entry in memory.
pub open spec fn aux_value_at(words: Seq<u64>, argc: int, envc: int, k: int) -> u64 {
    words[3 + argc + envc + 2 * k + 1]
}

proof fn lemma_cstr_kept(old_s: Seq<u8>, extra: Seq<u8>, off: int, s: Seq<u8>)
    requires
        0 <= off,
        off + s.len() + 1 <= old_s.len(),
        old_s.subrange(off, off + s.len() + 1) == s.push(0u8),
    ensures
        (old_s + extra).subrange(off, off + s.len() + 1) == s.push(0u8),
{
    assert((old_s + extra).subrange(off, off + s.len() + 1) =~= old_s.subrange(off, off + s.len() + 1));
}

/// The string area of a stack, lowest address first: the random bytes,
/// then the platform, each argument, each environment entry and the path,
/// each with its NUL; with the offsets of the arguments, of the
/// environment entries and of the path.
fn lay_out_strings(
    path: &Vec<u8>,
    args: &Vec<Vec<u8>>,
    env: &Vec<Vec<u8>>,
    platform: &Vec<u8>,
    random: &[u8; 16],
) -> (r: (Vec<u8>, Vec<usize>, Vec<usize>, usize))
    requires
        strings_room(path@, args@, env@, platform@) <= usize::MAX,
    ensures
        r.0@.len() == strings_room(path@, args@, env@, platform@),
        r.0@.subrange(0, 16) == random@,
        r.0@.subrange(16, 16 + platform@.len() as int + 1) == platform@.push(0u8),
        r.1@.len() == args@.len(),
        r.2@.len() == env@.len(),
        forall|q: int|
            0 <= q < args@.len() ==> r.1@[q] + args@[q]@.len() + 1 <= r.0@.len() && r.0@.subrange(
                r.1@[q] as int,
                r.1@[q] + args@[q]@.len() + 1,
            ) == (#[trigger] args@[q])@.push(0u8),
        forall|q: int|
            0 <= q < env@.len() ==> r.2@[q] + env@[q]@.len() + 1 <= r.0@.len() && r.0@.subrange(
                r.2@[q] as int,
                r.2@[q] + env@[q]@.len() + 1,
            ) == (#[trigger] env@[q])@.push(0u8),
        r.3 + path@.len() + 1 <= r.0@.len(),
        r.0@.subrange(r.3 as int, r.3 + path@.len() + 1) == path@.push(0u8),
{
    let mut strings: Vec<u8> = Vec::new();
    let mut j: usize = 0;
    while j < 16
        invariant
            j <= 16,
            strings@ == random@.subrange(0, j as int),
        decreases 16 - j,
    {
        strings.push(random[j]);
        assert(random@.subrange(0, j + 1) =~= random@.subrange(0, j as int).push(random@[j as int]));
        j += 1;
    }
    assert(random@.subrange(0, 16) =~= random@);
    let platform_off: usize = strings.len();
    push_cstr(&mut strings, platform);
    assert(strings@.subrange(16, 16 + platform@.len() as int + 1) =~= platform@.push(0u8));
    assert(strings@.subrange(0, 16) =~= random@);
    let mut arg_offs: Vec<usize> = Vec::new();
    let mut i: usize = 0;
    while i < args.len()
        invariant
            i <= args@.len(),
            arg_offs@.len() == i,
            platform_off == 16,
            forall|q: int| 0 <= q < arg_offs@.len() ==> arg_offs@[q] <= strings@.len(),
            forall|q: int|
                0 <= q < i ==> arg_offs@[q] + args@[q]@.len() + 1 <= strings@.len()
                    && strings@.subrange(arg_offs@[q] as int, arg_offs@[q] + args@[q]@.len() + 1)
                    == (#[trigger] args@[q])@.push(0u8),
            strings@.subrange(0, 16) == random@,
            strings@.subrange(16, 16 + platform@.len() as int + 1) == platform@.push(0u8),
            strings@.len() == 16 + platform@.len() as int + 1 + total_len(args@.subrange(0, i as int)) + i,
            strings_room(path@, args@, env@, platform@) <= usize::MAX,
        decreases args@.len() - i,
    {
        proof {
            lemma_total_len_step(args@, i as int);
            lemma_total_len_prefix(args@, i + 1);
        }
        let ghost before = strings@;
        arg_offs.push(strings.len());
        push_cstr(&mut strings, &args[i]);
        proof {
            let extra = args@[i as int]@ + seq![0u8];
            assert(strings@ == before + extra);
            assert(strings@.subrange(0, 16) =~= before.subrange(0, 16));
            assert(strings@.subrange(16, 16 + platform@.len() as int + 1) =~= before.subrange(
                16,
                16 + platform@.len() as int + 1,
            ));
            assert forall|q: int| 0 <= q < i + 1 implies arg_offs@[q] + args@[q]@.len() + 1
                <= strings@.len() && strings@.subrange(
                arg_offs@[q] as int,
                arg_offs@[q] + args@[q]@.len() + 1,
            ) == (#[trigger] args@[q])@.push(0u8) by {
                if q < i {
                    lemma_cstr_kept(before, extra, arg_offs@[q] as int, args@[q]@);
                } else {
                    assert(strings@.subrange(arg_offs@[q] as int, arg_offs@[q] + args@[q]@.len() + 1)
                        =~= args@[q]@.push(0u8));
                }
            }
        }
        i += 1;
    }
    proof {
        assert(args@.subrange(0, args@.len() as int) =~= args@);
    }
    let mut env_offs: Vec<usize> = Vec::new();
    let mut e: usize = 0;
    while e < env.len()
        invariant
            e <= env@.len(),
            env_offs@.len() == e,
            platform_off == 16,
            arg_offs@.len() == args@.len(),
            forall|q: int| 0 <= q < arg_offs@.len() ==> arg_offs@[q] <= strings@.len(),
            forall|q: int| 0 <= q < env_offs@.len() ==> env_offs@[q] <= strings@.len(),
            forall|q: int|
                0 <= q < args@.len() ==> arg_offs@[q] + args@[q]@.len() + 1 <= strings@.len()
                    && strings@.subrange(arg_offs@[q] as int, arg_offs@[q] + args@[q]@.len() + 1)
                    == (#[trigger] args@[q])@.push(0u8),
            forall|q: int|
                0 <= q < e ==> env_offs@[q] + env@[q]@.len() + 1 <= strings@.len()
                    && strings@.subrange(env_offs@[q] as int, env_offs@[q] + env@[q]@.len() + 1)
                    == (#[trigger] env@[q])@.push(0u8),
            strings@.subrange(0, 16) == random@,
            strings@.subrange(16, 16 + platform@.len() as int + 1) == platform@.push(0u8),
            strings@.len() == 16 + platform@.len() as int + 1 + total_len(args@) + args@.len() + total_len(
                env@.subrange(0, e as int),
            ) + e,
            strings_room(path@, args@, env@, platform@) <= usize::MAX,
        decreases env@.len() - e,
    {
        proof {
            lemma_total_len_step(env@, e as int);
            lemma_total_len_prefix(env@, e + 1);
        }
        let ghost before = strings@;
        env_offs.push(strings.len());
        push_cstr(&mut strings, &env[e]);
        proof {
            let extra = env@[e as int]@ + seq![0u8];
            assert(strings@ == before + extra);
            assert(strings@.subrange(0, 16) =~= before.subrange(0, 16));
            assert(strings@.subrange(16, 16 + platform@.len() as int + 1) =~= before.subrange(
                16,
                16 + platform@.len() as int + 1,
            ));
            assert forall|q: int| 0 <= q < args@.len() implies arg_offs@[q] + args@[q]@.len() + 1
                <= strings@.len() && strings@.subrange(
                arg_offs@[q] as int,
                arg_offs@[q] + args@[q]@.len() + 1,
            ) == (#[trigger] args@[q])@.push(0u8) by {
                lemma_cstr_kept(before, extra, arg_offs@[q] as int, args@[q]@);
            }
            assert forall|q: int| 0 <= q < e + 1 implies env_offs@[q] + env@[q]@.len() + 1
                <= strings@.len() && strings@.subrange(
                env_offs@[q] as int,
                env_offs@[q] + env@[q]@.len() + 1,
            ) == (#[trigger] env@[q])@.push(0u8) by {
                if q < e {
                    lemma_cstr_kept(before, extra, env_offs@[q] as int, env@[q]@);
                } else {
                    assert(strings@.subrange(env_offs@[q] as int, env_offs@[q] + env@[q]@.len() + 1)
                        =~= env@[q]@.push(0u8));
                }
            }
        }
        e += 1;
    }
    proof {
        assert(env@.subrange(0, env@.len() as int) =~= env@);
    }
    let path_off: usize = strings.len();
    let ghost before_path = strings@;
    push_cstr(&mut strings, path);
    proof {
        let extra = path@ + seq![0u8];
        assert(strings@.subrange(0, 16) =~= before_path.subrange(0, 16));
        assert(strings@.subrange(16, 16 + platform@.len() as int + 1) =~= before_path.subrange(
            16,
            16 + platform@.len() as int + 1,
        ));
        assert(strings@.subrange(path_off as int, path_off + path@.len() + 1) =~= path@.push(0u8));
        assert forall|q: int| 0 <= q < args@.len() implies arg_offs@[q] + args@[q]@.len() + 1
            <= strings@.len() && strings@.subrange(
            arg_offs@[q] as int,
            arg_offs@[q] + args@[q]@.len() + 1,
        ) == (#[trigger] args@[q])@.push(0u8) by {
            lemma_cstr_kept(before_path, extra, arg_offs@[q] as int, args@[q]@);
        }
        assert forall|q: int| 0 <= q < env@.len() implies env_offs@[q] + env@[q]@.len() + 1
            <= strings@.len() && strings@.subrange(
            env_offs@[q] as int,
            env_offs@[q] + env@[q]@.len() + 1,
        ) == (#[trigger] env@[q])@.push(0u8) by {
            lemma_cstr_kept(before_path, extra, env_offs@[q] as int, env@[q]@);
        }
    }
    (strings, arg_offs, env_offs, path_off)
}

/// The words of a stack from argc up: argc, the argument pointers, a
/// null word, the environment pointers, a null word, the auxiliary pairs
/// and the closing `AT_NULL` pair.
fn lay_out_words(arg_addrs: &Vec<u64>, env_addrs: &Vec<u64>, aux: &[(u64, u64); 17]) -> (r: Vec<u64>)
    ensures
        r@.len() == arg_addrs@.len() + env_addrs@.len() + 3 + 36,
        r@[0] == arg_addrs@.len(),
        forall|q: int| 0 <= q < arg_addrs@.len() ==> r@[1 + q] == #[trigger] arg_addrs@[q],
        r@[1 + arg_addrs@.len() as int] == 0,
        forall|q: int|
            0 <= q < env_addrs@.len() ==> r@[2 + arg_addrs@.len() + q] == #[trigger] env_addrs@[q],
        r@[2 + arg_addrs@.len() as int + env_addrs@.len() as int] == 0,
        forall|k: int|
            0 <= k < 17 ==> r@[3 + arg_addrs@.len() + env_addrs@.len() + 2 * k] == (#[trigger] aux@[k]).0
                && r@[3 + arg_addrs@.len() + env_addrs@.len() + 2 * k + 1] == aux@[k].1,
        r@[r@.len() - 2] == AT_NULL,
        r@[r@.len() - 1] == 0,
{
    let argc = arg_addrs.len();
    let envc = env_addrs.len();
    let mut words: Vec<u64> = Vec::new();
    words.push(argc as u64);
    let mut a: usize = 0;
    while a < argc
        invariant
            a <= argc == arg_addrs@.len(),
            words@.len() == 1 + a,
            words@[0] == argc,
            forall|q: int| 0 <= q < a ==> words@[1 + q] == arg_addrs@[q],
        decreases argc - a,
    {
        words.push(arg_addrs[a]);
        a += 1;
    }
    words.push(0);
    let mut v: usize = 0;
    while v < envc
        invariant
            v <= envc == env_addrs@.len(),
            argc == arg_addrs@.len(),
            words@.len() == 2 + argc + v,
            words@[0] == argc,
            words@[1 + argc] == 0,
            forall|q: int| 0 <= q < argc ==> words@[1 + q] == arg_addrs@[q],
            forall|q: int| 0 <= q < v ==> words@[2 + argc + q] == env_addrs@[q],
        decreases envc - v,
    {
        words.push(env_addrs[v]);
        v += 1;
    }
    words.push(0);
    let ghost start = words@.len();
    let mut t: usize = 0;
    while t < 17
        invariant
            t <= 17,
            argc == arg_addrs@.len(),
            envc == env_addrs@.len(),
            start == 3 + argc + envc,
            words@.len() == start + 2 * t,
            words@[0] == argc,
            words@[1 + argc] == 0,
            words@[2 + argc + envc] == 0,
            forall|q: int| 0 <= q < argc ==> words@[1 + q] == arg_addrs@[q],
            forall|q: int| 0 <= q < envc ==> words@[2 + argc + q] == env_addrs@[q],
            forall|q: int|
                0 <= q < t ==> words@[start + 2 * q] == (#[trigger] aux@[q]).0 && words@[start + 2
                    * q + 1] == aux@[q].1,
        decreases 17 - t,
    {
        words.push(aux[t].0);
        words.push(aux[t].1);
        t += 1;
    }
    words.push(AT_NULL);
    words.push(0);
    words
}

/// Lays out the initial stack of a program loaded at `bin_addr` (and its
/// interpreter at `interp_addr`), for a stack whose top is `stack_end`:
/// argc, the argument and environment pointers each followed by a null
/// word, the auxiliary vector in its fixed order closed by `AT_NULL`, then
/// padding that aligns argc to 16 bytes, the random bytes, the platform,
/// argument, environment and path strings.
#[verifier::rlimit(80)]
pub fn build_stack(
    interp_addr: Option<usize>,
    bin_addr: usize,
    header: &ElfHeaderInfo,
    stack_end: usize,
    path: &Vec<u8>,
    args: &Vec<Vec<u8>>,
    env: &Vec<Vec<u8>>,
    platform: &Vec<u8>,
    random: &[u8; 16],
    values: &AuxValues,
) -> (r: StackImage)
    requires
        bin_addr + header.e_entry <= u64::MAX,
        bin_addr + header.e_phoff <= u64::MAX,
        strings_room(path@, args@, env@, platform@) + 16 + 8 * (args@.len() + env@.len() + 39)
            <= stack_end,
    ensures
        (8 * r.words@.len() + r.padding + r.strings@.len()) % 16 == 0,
        (stack_end - (8 * r.words@.len() + r.padding + r.strings@.len())) % 16 == stack_end % 16,
        r.padding < 16,
        r.strings@.len() == strings_room(path@, args@, env@, platform@),
        r.words@.len() == args@.len() + env@.len() + 3 + 36,
        r.words@[0] == args@.len(),
        r.words@[1 + args@.len() as int] == 0,
        r.words@[2 + args@.len() as int + env@.len() as int] == 0,
        forall|k: int|
            0 <= k < 18 ==> r.words@[3 + args@.len() + env@.len() + 2 * k] == #[trigger] aux_tags_in_memory()[k],
        r.words@[r.words@.len() - 1] == 0,
        r.words@[r.words@.len() - 2] == AT_NULL,
        forall|q: int|
            0 <= q < args@.len() ==> cstr_at(
                r.strings@,
                stack_end as int,
                r.words@[1 + q] as int,
                #[trigger] args@[q]@,
            ),
        forall|q: int|
            0 <= q < env@.len() ==> cstr_at(
                r.strings@,
                stack_end as int,
                r.words@[2 + args@.len() + q] as int,
                #[trigger] env@[q]@,
            ),
        r.strings@.subrange(0, 16) == random@,
        ({
            let (argc, envc) = (args@.len() as int, env@.len() as int);
            &&& aux_value_at(r.words@, argc, envc, 0) == bin_addr + header.e_phoff
            &&& aux_value_at(r.words@, argc, envc, 1) == header.e_phentsize
            &&& aux_value_at(r.words@, argc, envc, 2) == header.e_phnum
            &&& aux_value_at(r.words@, argc, envc, 3) == values.pagesz
            &&& aux_value_at(r.words@, argc, envc, 4) == match interp_addr {
                Some(x) => x as u64,
                None => 0u64,
            }
            &&& aux_value_at(r.words@, argc, envc, 5) == 0
            &&& aux_value_at(r.words@, argc, envc, 6) == bin_addr + header.e_entry
            &&& aux_value_at(r.words@, argc, envc, 7) == values.uid
            &&& aux_value_at(r.words@, argc, envc, 8) == values.euid
            &&& aux_value_at(r.words@, argc, envc, 9) == values.gid
            &&& aux_value_at(r.words@, argc, envc, 10) == values.egid
            &&& aux_value_at(r.words@, argc, envc, 11) == values.hwcap
            &&& aux_value_at(r.words@, argc, envc, 12) == values.clktck
            &&& aux_value_at(r.words@, argc, envc, 13) == stack_end - r.strings@.len()
            &&& aux_value_at(r.words@, argc, envc, 14) == values.secure
            &&& cstr_at(r.strings@, stack_end as int, aux_value_at(r.words@, argc, envc, 15) as int, path@)
            &&& cstr_at(
                r.strings@,
                stack_end as int,
                aux_value_at(r.words@, argc, envc, 16) as int,
                platform@,
            )
        }),
{
    let laid = lay_out_strings(path, args, env, platform, random);
    let path_off = laid.3;
    let strings = laid.0;
    let arg_offs = laid.1;
    let env_offs = laid.2;
    let platform_off: usize = 16;
    let total: usize = strings.len();
    let base: usize = stack_end - total;
    assert(arg_offs@.len() == args@.len());
    assert(strings@.len() == total);
    assert forall|q: int| 0 <= q < arg_offs@.len() implies arg_offs@[q] <= total by {
        assert(0 <= q < args@.len());
        let t = args@[q];
        assert(arg_offs@[q] + t@.len() + 1 <= strings@.len());
    }
    assert forall|q: int| 0 <= q < env_offs@.len() implies env_offs@[q] <= total by {
        assert(0 <= q < env@.len());
        let t = env@[q];
        assert(env_offs@[q] + t@.len() + 1 <= strings@.len());
    }
    let argc: usize = args.len();
    let envc: usize = env.len();
    let fixed: usize = total + 8 * (argc + envc + 3);
    let padding: usize = (16 - fixed % 16) % 16;
    assert((fixed + padding + 288) % 16 == 0);
    let mut arg_addrs: Vec<u64> = Vec::new();
    let mut q: usize = 0;
    while q < argc
        invariant
            q <= argc == args@.len() == arg_offs@.len(),
            arg_addrs@.len() == q,
            forall|x: int| 0 <= x < arg_offs@.len() ==> arg_offs@[x] <= total,
            forall|x: int| 0 <= x < q ==> arg_addrs@[x] == base + arg_offs@[x],
            base + total == stack_end,
        decreases argc - q,
    {
        arg_addrs.push((base + arg_offs[q]) as u64);
        q += 1;
    }
    let mut env_addrs: Vec<u64> = Vec::new();
    let mut w: usize = 0;
    while w < envc
        invariant
            w <= envc == env@.len() == env_offs@.len(),
            env_addrs@.len() == w,
            forall|x: int| 0 <= x < env_offs@.len() ==> env_offs@[x] <= total,
            forall|x: int| 0 <= x < w ==> env_addrs@[x] == base + env_offs@[x],
            base + total == stack_end,
        decreases envc - w,
    {
        env_addrs.push((base + env_offs[w]) as u64);
        w += 1;
    }
    let load: u64 = bin_addr as u64;
    let at_base: u64 = match interp_addr {
        Some(x) => x as u64,
        None => 0,
    };
    let aux: [(u64, u64); 17] = [
        (AT_PHDR, load + header.e_phoff),
        (AT_PHENT, header.e_phentsize as u64),
        (AT_PHNUM, header.e_phnum as u64),
        (AT_PAGESZ, values.pagesz),
        (AT_BASE, at_base),
        (AT_FLAGS, 0),
        (AT_ENTRY, load + header.e_entry),
        (AT_UID, values.uid),
        (AT_EUID, values.euid),
        (AT_GID, values.gid),
        (AT_EGID, values.egid),
        (AT_HWCAP, values.hwcap),
        (AT_CLKTCK, values.clktck),
        (AT_RANDOM, base as u64),
        (AT_SECURE, values.secure),
        (AT_EXECFN, (base + path_off) as u64),
        (AT_PLATFORM, (base + platform_off) as u64),
    ];
    assert(forall|k: int| 0 <= k < 17 ==> aux@[k].0 == aux_tags_in_memory()[k]);
    let words = lay_out_words(&arg_addrs, &env_addrs, &aux);
    let ghost (ac, ec) = (args@.len() as int, env@.len() as int);
    assert(aux_value_at(words@, ac, ec, 0) == aux@[0].1);
    assert(aux_value_at(words@, ac, ec, 1) == aux@[1].1);
    assert(aux_value_at(words@, ac, ec, 2) == aux@[2].1);
    assert(aux_value_at(words@, ac, ec, 3) == aux@[3].1);
    assert(aux_value_at(words@, ac, ec, 4) == aux@[4].1);
    assert(aux_value_at(words@, ac, ec, 5) == aux@[5].1);
    assert(aux_value_at(words@, ac, ec, 6) == aux@[6].1);
    assert(aux_value_at(words@, ac, ec, 7) == aux@[7].1);
    assert(aux_value_at(words@, ac, ec, 8) == aux@[8].1);
    assert(aux_value_at(words@, ac, ec, 9) == aux@[9].1);
    assert(aux_value_at(words@, ac, ec, 10) == aux@[10].1);
    assert(aux_value_at(words@, ac, ec, 11) == aux@[11].1);
    assert(aux_value_at(words@, ac, ec, 12) == aux@[12].1);
    assert(aux_value_at(words@, ac, ec, 13) == aux@[13].1);
    assert(aux_value_at(words@, ac, ec, 14) == aux@[14].1);
    assert(aux_value_at(words@, ac, ec, 15) == aux@[15].1);
    assert(aux_value_at(words@, ac, ec, 16) == aux@[16].1);
    assert(cstr_at(strings@, stack_end as int, (base + path_off) as int, path@));
    assert(cstr_at(strings@, stack_end as int, (base + 16) as int, platform@));
    assert forall|x: int| 0 <= x < args@.len() implies cstr_at(
        strings@,
        stack_end as int,
        words@[1 + x] as int,
        #[trigger] args@[x]@,
    ) by {
        assert(words@[1 + x] == arg_addrs@[x]);
    }
    assert forall|x: int| 0 <= x < env@.len() implies cstr_at(
        strings@,
        stack_end as int,
        words@[2 + args@.len() + x] as int,
        #[trigger] env@[x]@,
    ) by {
        assert(words@[2 + args@.len() + x] == env_addrs@[x]);
    }
    StackImage { words, padding, strings }
}

} // verus!
