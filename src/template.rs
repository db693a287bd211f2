//! The plain-text launcher configuration (`key = value` lines) and the
//! decisions of the launcher that reads it.
use vstd::prelude::*;
use vstd::string::*;
use crate::model::opt_view;
use crate::path::{join_path, path_join};
use crate::text::{contains, has_infix, join_seq, split, split_seq, text_eq, trim, trim_seq, views};

verus! {

/// A launcher configuration read from text.
#[derive(Debug)]
pub struct LaunchConfig {
    pub dynamic: bool,
    pub linker: Option<String>,
    pub binary: String,
    pub library_paths: Vec<String>,
}

pub struct LaunchConfigView {
    pub dynamic: bool,
    pub linker: Option<Seq<char>>,
    pub binary: Seq<char>,
    pub library_paths: Seq<Seq<char>>,
}

impl View for LaunchConfig {
    type V = LaunchConfigView;

    open spec fn view(&self) -> LaunchConfigView {
        LaunchConfigView {
            dynamic: self.dynamic,
            linker: opt_view(self.linker),
            binary: self.binary@,
            library_paths: views(self.library_paths@),
        }
    }
}

/// Index of the first `c` in `s`.
pub open spec fn find_char(s: Seq<char>, c: char) -> Option<int>
    decreases s.len(),
{
    if s.len() == 0 {
        None
    } else if s[0] == c {
        Some(0)
    } else {
        match find_char(s.drop_first(), c) {
            Some(i) => Some(i + 1),
            None => None,
        }
    }
}

/// The pieces trimmed, blank ones left out.
pub open spec fn trimmed_nonblank(parts: Seq<Seq<char>>) -> Seq<Seq<char>>
    decreases parts.len(),
{
    if parts.len() == 0 {
        Seq::empty()
    } else {
        let init = trimmed_nonblank(parts.drop_last());
        let t = trim_seq(parts.last());
        if t.len() > 0 {
            init.push(t)
        } else {
            init
        }
    }
}

/// One line applied to the configuration read so far: blank lines and
/// `#` comments are skipped, a line without `=` is an error, and the keys
/// `dynamic`, `linker`, `binary` and `library_paths` set their field.
pub open spec fn apply_line(st: LaunchConfigView, line: Seq<char>) -> Option<LaunchConfigView> {
    let t = trim_seq(line);
    if t.len() == 0 || t[0] == '#' {
        Some(st)
    } else {
        match find_char(t, '=') {
            None => None,
            Some(i) => {
                let key = trim_seq(t.subrange(0, i));
                let value = trim_seq(t.subrange(i + 1, t.len() as int));
                if key == "dynamic"@ {
                    Some(LaunchConfigView { dynamic: value == "1"@, ..st })
                } else if key == "linker"@ {
                    if value.len() > 0 {
                        Some(LaunchConfigView { linker: Some(value), ..st })
                    } else {
                        Some(st)
                    }
                } else if key == "binary"@ {
                    Some(LaunchConfigView { binary: value, ..st })
                } else if key == "library_paths"@ {
                    if value.len() > 0 {
                        Some(
                            LaunchConfigView {
                                library_paths: trimmed_nonblank(split_seq(value, ':')),
                                ..st
                            },
                        )
                    } else {
                        Some(st)
                    }
                } else {
                    Some(st)
                }
            },
        }
    }
}

pub open spec fn empty_config() -> LaunchConfigView {
    LaunchConfigView {
        dynamic: false,
        linker: None,
        binary: Seq::empty(),
        library_paths: Seq::empty(),
    }
}

/// The lines applied in order from the empty configuration; `None` at the
/// first invalid line.
pub open spec fn apply_lines(lines: Seq<Seq<char>>) -> Option<LaunchConfigView>
    decreases lines.len(),
{
    if lines.len() == 0 {
        Some(empty_config())
    } else {
        match apply_lines(lines.drop_last()) {
            Some(st) => apply_line(st, lines.last()),
            None => None,
        }
    }
}

/// Index of the first `c` in `s`.
fn find_char_index(s: &str, c: char) -> (r: Option<usize>)
    ensures
        match r {
            Some(i) => find_char(s@, c) == Some(i as int) && i < s@.len(),
            None => find_char(s@, c) is None,
        },
{
    let n = s.unicode_len();
    let mut i: usize = 0;
    assert(s@.subrange(0, n as int) =~= s@);
    while i < n
        invariant
            n == s@.len(),
            i <= n,
            forall|j: int| 0 <= j < i ==> s@[j] != c,
        decreases n - i,
    {
        if s.get_char(i) == c {
            proof {
                lemma_find_char_at(s@, c, i as int);
            }
            return Some(i);
        }
        i += 1;
    }
    proof {
        lemma_find_char_none(s@, c);
    }
    None
}

proof fn lemma_find_char_at(s: Seq<char>, c: char, i: int)
    requires
        0 <= i < s.len(),
        s[i] == c,
        forall|j: int| 0 <= j < i ==> s[j] != c,
    ensures
        find_char(s, c) == Some(i),
    decreases i,
{
    if i > 0 {
        lemma_find_char_at(s.drop_first(), c, i - 1);
    }
}

proof fn lemma_find_char_none(s: Seq<char>, c: char)
    requires
        forall|j: int| 0 <= j < s.len() ==> s[j] != c,
    ensures
        find_char(s, c) is None,
    decreases s.len(),
{
    if s.len() > 0 {
        lemma_find_char_none(s.drop_first(), c);
    }
}

fn trimmed_pieces(parts: &Vec<String>) -> (r: Vec<String>)
    ensures
        views(r@) == trimmed_nonblank(views(parts@)),
{
    let mut out: Vec<String> = Vec::new();
    let mut i: usize = 0;
    while i < parts.len()
        invariant
            i <= parts@.len(),
            views(out@) == trimmed_nonblank(views(parts@.subrange(0, i as int))),
        decreases parts@.len() - i,
    {
        let ghost pre = views(parts@.subrange(0, i as int));
        let ghost next = views(parts@.subrange(0, i + 1));
        assert(next.drop_last() =~= pre);
        assert(next.last() == parts@[i as int]@);
        let t = trim(parts[i].as_str());
        if t.unicode_len() > 0 {
            let ghost before = views(out@);
            out.push(t);
            assert(views(out@) =~= before.push(t@));
        }
        i += 1;
    }
    assert(parts@.subrange(0, parts@.len() as int) =~= parts@);
    out
}

impl LaunchConfig {
    fn apply(&mut self, line: &str) -> (ok: bool)
        ensures
            match apply_line(old(self)@, line@) {
                Some(v) => ok && final(self)@ == v,
                None => !ok,
            },
    {
        let t = trim(line);
        let n = t.unicode_len();
        if n == 0 || t.as_str().get_char(0) == '#' {
            return true;
        }
        let i = match find_char_index(t.as_str(), '=') {
            Some(i) => i,
            None => {
                return false;
            },
        };
        let key_raw = crate::text::substring(t.as_str(), 0, i);
        let value_raw = crate::text::substring(t.as_str(), i + 1, n);
        let key = trim(key_raw.as_str());
        let value = trim(value_raw.as_str());
        proof {
            reveal_strlit("1");
        }
        if text_eq(key.as_str(), "dynamic") {
            self.dynamic = text_eq(value.as_str(), "1");
        } else if text_eq(key.as_str(), "linker") {
            if value.unicode_len() > 0 {
                self.linker = Some(value);
            }
        } else if text_eq(key.as_str(), "binary") {
            self.binary = value;
        } else if text_eq(key.as_str(), "library_paths") {
            if value.unicode_len() > 0 {
                let parts = split(value.as_str(), ':');
                self.library_paths = trimmed_pieces(&parts);
            }
        }
        true
    }

    /// Reads a configuration; an error for a line without `=` and for a
    /// configuration without a binary.
    pub fn parse(contents: &str) -> (r: Result<LaunchConfig, String>)
        ensures
            match apply_lines(split_seq(contents@, '\n')) {
                None => r matches Err(m) && m@ == "invalid config line"@,
                Some(v) => if v.binary.len() == 0 {
                    r matches Err(m) && m@ == "binary path missing"@
                } else {
                    r matches Ok(c) && c@ == v
                },
            },
    {
        let lines = split(contents, '\n');
        let mut cfg = LaunchConfig {
            dynamic: false,
            linker: None,
            binary: String::new(),
            library_paths: Vec::new(),
        };
        let mut i: usize = 0;
        assert(views(lines@.subrange(0, 0)) =~= Seq::<Seq<char>>::empty());
        assert(cfg@ == empty_config()) by {
            assert(views(cfg.library_paths@) =~= Seq::<Seq<char>>::empty());
        }
        while i < lines.len()
            invariant
                i <= lines@.len(),
                views(lines@) == split_seq(contents@, '\n'),
                apply_lines(views(lines@.subrange(0, i as int))) == Some(cfg@),
            decreases lines@.len() - i,
        {
            let ghost pre = views(lines@.subrange(0, i as int));
            let ghost next = views(lines@.subrange(0, i + 1));
            assert(next.drop_last() =~= pre);
            assert(next.last() == lines@[i as int]@);
            if !cfg.apply(lines[i].as_str()) {
                proof {
                    lemma_apply_lines_stuck(views(lines@), i as int + 1);
                    assert(views(lines@).subrange(0, i + 1) =~= next);
                }
                return Err("invalid config line".to_owned());
            }
            i += 1;
        }
        assert(lines@.subrange(0, lines@.len() as int) =~= lines@);
        if cfg.binary.unicode_len() == 0 {
            return Err("binary path missing".to_owned());
        }
        Ok(cfg)
    }
}

proof fn lemma_apply_lines_stuck(lines: Seq<Seq<char>>, i: int)
    requires
        0 < i <= lines.len(),
        apply_lines(lines.subrange(0, i)) is None,
    ensures
        apply_lines(lines) is None,
    decreases lines.len() - i,
{
    if i < lines.len() {
        assert(lines.subrange(0, i + 1).drop_last() =~= lines.subrange(0, i));
        lemma_apply_lines_stuck(lines, i + 1);
    } else {
        assert(lines.subrange(0, i) =~= lines);
    }
}

/// The absolute library directories, those under `glibc-hwcaps` last
/// and only when asked for.
pub open spec fn library_paths_spec(root: Seq<char>, rels: Seq<Seq<char>>, include_hwcaps: bool) -> Seq<
    Seq<char>,
> {
    let base = rels.filter(|r: Seq<char>| !has_infix(r, "glibc-hwcaps"@));
    let hw = rels.filter(|r: Seq<char>| has_infix(r, "glibc-hwcaps"@));
    let abs = |s: Seq<Seq<char>>| s.map_values(|r: Seq<char>| path_join(root, r));
    if include_hwcaps {
        abs(base) + abs(hw)
    } else {
        abs(base)
    }
}

pub fn build_library_paths(bundle_root: &str, raw_paths: &Vec<String>, include_hwcaps: bool) -> (r: Vec<
    String,
>)
    ensures
        views(r@) == library_paths_spec(bundle_root@, views(raw_paths@), include_hwcaps),
{
    let mut baseline: Vec<String> = Vec::new();
    let mut hwcaps: Vec<String> = Vec::new();
    let ghost rels = views(raw_paths@);
    let ghost isb = |r: Seq<char>| !has_infix(r, "glibc-hwcaps"@);
    let ghost ish = |r: Seq<char>| has_infix(r, "glibc-hwcaps"@);
    let mut i: usize = 0;
    while i < raw_paths.len()
        invariant
            i <= raw_paths@.len(),
            rels == views(raw_paths@),
            isb == (|r: Seq<char>| !has_infix(r, "glibc-hwcaps"@)),
            ish == (|r: Seq<char>| has_infix(r, "glibc-hwcaps"@)),
            views(baseline@) == rels.subrange(0, i as int).filter(isb).map_values(
                |r: Seq<char>| path_join(bundle_root@, r),
            ),
            views(hwcaps@) == rels.subrange(0, i as int).filter(ish).map_values(
                |r: Seq<char>| path_join(bundle_root@, r),
            ),
        decreases raw_paths@.len() - i,
    {
        let ghost pre = rels.subrange(0, i as int);
        let ghost next = rels.subrange(0, i + 1);
        assert(next =~= pre.push(rels[i as int]));
        proof {
            pre.lemma_filter_push(rels[i as int], isb);
            pre.lemma_filter_push(rels[i as int], ish);
        }
        let absolute = join_path(bundle_root, raw_paths[i].as_str());
        if contains(raw_paths[i].as_str(), "glibc-hwcaps") {
            let ghost before = views(hwcaps@);
            hwcaps.push(absolute);
            assert(views(hwcaps@) =~= before.push(absolute@));
            assert(views(hwcaps@) =~= next.filter(ish).map_values(
                |r: Seq<char>| path_join(bundle_root@, r),
            ));
            assert(next.filter(isb) =~= pre.filter(isb));
        } else {
            let ghost before = views(baseline@);
            baseline.push(absolute);
            assert(views(baseline@) =~= before.push(absolute@));
            assert(views(baseline@) =~= next.filter(isb).map_values(
                |r: Seq<char>| path_join(bundle_root@, r),
            ));
            assert(next.filter(ish) =~= pre.filter(ish));
        }
        i += 1;
    }
    assert(rels.subrange(0, rels.len() as int) =~= rels);
    if include_hwcaps {
        let ghost b = views(baseline@);
        let mut k: usize = 0;
        while k < hwcaps.len()
            invariant
                k <= hwcaps@.len(),
                views(baseline@) == b + views(hwcaps@).subrange(0, k as int),
            decreases hwcaps@.len() - k,
        {
            let ghost before = views(baseline@);
            baseline.push(hwcaps[k].clone());
            assert(views(baseline@) =~= before.push(hwcaps@[k as int]@));
            assert(views(hwcaps@).subrange(0, k + 1) =~= views(hwcaps@).subrange(0, k as int).push(
                hwcaps@[k as int]@,
            ));
            k += 1;
        }
        assert(views(hwcaps@).subrange(0, hwcaps@.len() as int) =~= views(hwcaps@));
    }
    baseline
}

/// The value to give `LD_ASSUME_KERNEL`, if it is to be set: nothing when
/// it is set already, else the non-blank `SIDEBUNDLE_ASSUME_KERNEL`, else
/// `4.14.0`.
pub fn assume_kernel_value(already_set: bool, custom: Option<String>) -> (r: Option<String>)
    ensures
        already_set ==> r is None,
        !already_set ==> match custom {
            Some(c) => if trim_seq(c@).len() > 0 {
                r matches Some(v) && v@ == c@
            } else {
                r matches Some(v) && v@ == "4.14.0"@
            },
            None => r matches Some(v) && v@ == "4.14.0"@,
        },
{
    if already_set {
        return None;
    }
    match custom {
        Some(c) => {
            if trim(c.as_str()).unicode_len() > 0 {
                return Some(c);
            }
        },
        None => {},
    }
    Some("4.14.0".to_owned())
}

/// The arguments given to the dynamic linker: the library path when there
/// is one, then the entry and the caller's arguments.
pub open spec fn linker_args_spec(entry: Seq<char>, extra: Seq<Seq<char>>, search: Seq<Seq<char>>) -> Seq<
    Seq<char>,
> {
    (if search.len() > 0 {
        seq!["--library-path"@, join_seq(search, seq![':'])]
    } else {
        Seq::empty()
    }) + seq![entry] + extra
}

pub fn linker_args(entry: &str, extra_args: &Vec<String>, search_paths: &Vec<String>) -> (r: Vec<String>)
    ensures
        views(r@) == linker_args_spec(entry@, views(extra_args@), views(search_paths@)),
{
    let mut out: Vec<String> = Vec::new();
    if search_paths.len() > 0 {
        out.push("--library-path".to_owned());
        proof {
            reveal_strlit(":");
        }
        let joined = crate::text::join(search_paths, ":");
        assert(":"@ =~= seq![':']);
        out.push(joined);
    }
    out.push(entry.to_owned());
    let ghost head = views(out@);
    let mut i: usize = 0;
    while i < extra_args.len()
        invariant
            i <= extra_args@.len(),
            views(out@) == head + views(extra_args@).subrange(0, i as int),
        decreases extra_args@.len() - i,
    {
        let ghost before = views(out@);
        out.push(extra_args[i].clone());
        assert(views(out@) =~= before.push(extra_args@[i as int]@));
        assert(views(extra_args@).subrange(0, i + 1) =~= views(extra_args@).subrange(0, i as int).push(
            extra_args@[i as int]@,
        ));
        i += 1;
    }
    assert(views(extra_args@).subrange(0, extra_args@.len() as int) =~= views(extra_args@));
    assert(views(out@) =~= linker_args_spec(entry@, views(extra_args@), views(search_paths@)));
    out
}

} // verus!
