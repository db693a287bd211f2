//! The static closure builder: a breadth-first walk over the `needed`
//! libraries of each entry, with the dynamic linker's search order.
use vstd::prelude::*;
use vstd::string::*;
use crate::elf::{ElfMetadata, ElfMetadataView, ElfParseError};
use crate::facts::{
    canonical_of, exists_of, find_fact, lookup, metadata_of, HostFacts, HostQuery,
};
use crate::model::{
    opt_view, BundleEntry, BundleSpec, DependencyClosure, EntryBundlePlan, ResolvedFile,
};
use crate::path::{
    destination_for, is_absolute, is_absolute_str, join_path, lemma_destination_under_payload,
    parent_dir, parent_of, path_join, payload_destination, payload_root,
};
use crate::text::{
    concat, has_prefix, replace, replace_seq, split, split_seq, starts_with, text_eq, trim, trim_seq, views,
};

verus! {

/// Builds dependency closures from what is known of the host.
pub struct ClosureBuilder {
    pub ld_library_paths: Vec<String>,
    pub default_paths: Vec<String>,
}

#[derive(Debug)]
pub enum ClosureError {
    Io { path: String, message: String },
    ElfParse { path: String, source: ElfParseError },
    MissingInterpreter { path: String },
    LibraryNotFound { name: String, needed_by: String },
}

impl ClosureError {
    /// The human-readable message of the error.
    pub fn message(&self) -> (r: String)
        ensures
            match self {
                ClosureError::Io { path, message } => r@ == "failed to read "@ + path@ + ": "@
                    + message@,
                ClosureError::ElfParse { path, source } => r@ == "ELF parse error "@ + path@
                    + ": "@ + source.message_spec(),
                ClosureError::MissingInterpreter { path } => r@ == "binary "@ + path@
                    + " lacks PT_INTERP linker"@,
                ClosureError::LibraryNotFound { name, needed_by } => r@ == "failed to locate "@
                    + name@ + ", required by "@ + needed_by@,
            },
    {
        match self {
            ClosureError::Io { path, message } => {
                let a = concat("failed to read ", path.as_str());
                let b = concat(a.as_str(), ": ");
                concat(b.as_str(), message.as_str())
            },
            ClosureError::ElfParse { path, source } => {
                let a = concat("ELF parse error ", path.as_str());
                let b = concat(a.as_str(), ": ");
                let m = source.message();
                concat(b.as_str(), m.as_str())
            },
            ClosureError::MissingInterpreter { path } => {
                let a = concat("binary ", path.as_str());
                concat(a.as_str(), " lacks PT_INTERP linker")
            },
            ClosureError::LibraryNotFound { name, needed_by } => {
                let a = concat("failed to locate ", name.as_str());
                let b = concat(a.as_str(), ", required by ");
                concat(b.as_str(), needed_by.as_str())
            },
        }
    }
}

/// Why a build stopped short of a closure: an error, or a host fact
/// that has not been recorded yet.
#[derive(Debug)]
pub enum BuildStop {
    Failed(ClosureError),
    NeedFact(HostQuery),
}

/// The pieces of a colon-separated list that hold more than white space.
pub open spec fn nonblank(parts: Seq<Seq<char>>) -> Seq<Seq<char>>
    decreases parts.len(),
{
    if parts.len() == 0 {
        Seq::empty()
    } else {
        let init = nonblank(parts.drop_last());
        if trim_seq(parts.last()).len() > 0 {
            init.push(parts.last())
        } else {
            init
        }
    }
}

/// The directories of a `LD_LIBRARY_PATH` value, blank ones left out.
pub open spec fn split_paths_spec(value: Seq<char>) -> Seq<Seq<char>> {
    nonblank(split_seq(value, ':'))
}

/// A RUNPATH or RPATH segment with `$ORIGIN` and then `${ORIGIN}`
/// replaced by the binary's directory; a relative result is taken
/// relative to that directory, a blank segment gives nothing.
pub open spec fn expand_origin_spec(segment: Seq<char>, origin: Seq<char>) -> Option<Seq<char>> {
    if trim_seq(segment).len() == 0 {
        None
    } else {
        let replaced = replace_seq(replace_seq(segment, "$ORIGIN"@, origin), "${ORIGIN}"@, origin);
        if replaced.len() == 0 {
            None
        } else if is_absolute(replaced) {
            Some(replaced)
        } else {
            Some(path_join(origin, replaced))
        }
    }
}

pub open spec fn expand_segments(segments: Seq<Seq<char>>, origin: Seq<char>) -> Seq<Seq<char>>
    decreases segments.len(),
{
    if segments.len() == 0 {
        Seq::empty()
    } else {
        let init = expand_segments(segments.drop_last(), origin);
        match expand_origin_spec(segments.last(), origin) {
            Some(p) => init.push(p),
            None => init,
        }
    }
}

/// The directories searched for the libraries of `binary`, in order:
/// RUNPATH (or RPATH when there is no RUNPATH) expanded, then
/// `LD_LIBRARY_PATH`, then the binary's own directory, then the defaults.
pub open spec fn search_paths_spec(
    ld: Seq<Seq<char>>,
    defaults: Seq<Seq<char>>,
    binary: Seq<char>,
    m: ElfMetadataView,
) -> Seq<Seq<char>> {
    let origin = parent_dir(binary);
    let preferred = if m.runpaths.len() == 0 {
        m.rpaths
    } else {
        m.runpaths
    };
    expand_segments(preferred, origin) + ld + seq![origin] + defaults
}

/// Names provided by the kernel or by the interpreter itself.
pub open spec fn should_skip_spec(name: Seq<char>) -> bool {
    has_prefix(name, "linux-vdso"@) || has_prefix(name, "ld-linux"@)
}

/// The paths tried for `name`, in order: the name itself when it is
/// absolute, then the name in each search directory.
pub open spec fn candidates(name: Seq<char>, dirs: Seq<Seq<char>>) -> Seq<Seq<char>> {
    (if is_absolute(name) {
        seq![name]
    } else {
        Seq::empty()
    }) + dirs.map_values(|d: Seq<char>| path_join(d, name))
}

/// Outcome of a library search.
pub enum Search {
    Found(Seq<char>),
    Missing,
    Unknown(Seq<char>),
}

/// The first candidate that exists; `Unknown` at the first candidate
/// whose existence is not recorded.
pub open spec fn first_existing(cands: Seq<Seq<char>>, host: HostFacts) -> Search
    decreases cands.len(),
{
    if cands.len() == 0 {
        Search::Missing
    } else {
        match exists_of(host, cands[0]) {
            None => Search::Unknown(cands[0]),
            Some(true) => Search::Found(cands[0]),
            Some(false) => first_existing(cands.drop_first(), host),
        }
    }
}


impl ClosureBuilder {
    pub open spec fn search_paths(&self, binary: Seq<char>, m: ElfMetadataView) -> Seq<Seq<char>> {
        search_paths_spec(views(self.ld_library_paths@), views(self.default_paths@), binary, m)
    }

    /// A builder with no `LD_LIBRARY_PATH` directories and the default
    /// library directories.
    pub fn new() -> (r: Self)
        ensures
            r.ld_library_paths@.len() == 0,
            views(r.default_paths@) == seq![
                "/lib"@,
                "/lib64"@,
                "/usr/lib"@,
                "/usr/lib64"@,
                "/usr/lib/x86_64-linux-gnu"@,
                "/usr/local/lib"@,
            ],
    {
        let mut d: Vec<String> = Vec::new();
        d.push("/lib".to_owned());
        d.push("/lib64".to_owned());
        d.push("/usr/lib".to_owned());
        d.push("/usr/lib64".to_owned());
        d.push("/usr/lib/x86_64-linux-gnu".to_owned());
        d.push("/usr/local/lib".to_owned());
        let r = ClosureBuilder { ld_library_paths: Vec::new(), default_paths: d };
        assert(views(r.default_paths@) =~= seq![
            "/lib"@,
            "/lib64"@,
            "/usr/lib"@,
            "/usr/lib64"@,
            "/usr/lib/x86_64-linux-gnu"@,
            "/usr/local/lib"@,
        ]);
        r
    }

    /// The same builder searching the directories of the `LD_LIBRARY_PATH`
    /// value `value`.
    pub fn with_ld_library_path(self, value: &str) -> (r: Self)
        ensures
            views(r.ld_library_paths@) == split_paths_spec(value@),
            r.default_paths == self.default_paths,
    {
        ClosureBuilder { ld_library_paths: Self::split_paths(value), default_paths: self.default_paths }
    }

    pub fn split_paths(value: &str) -> (r: Vec<String>)
        ensures
            views(r@) == split_paths_spec(value@),
    {
        let parts = split(value, ':');
        let mut out: Vec<String> = Vec::new();
        let mut i: usize = 0;
        while i < parts.len()
            invariant
                i <= parts@.len(),
                views(parts@) == split_seq(value@, ':'),
                views(out@) == nonblank(views(parts@.subrange(0, i as int))),
            decreases parts@.len() - i,
        {
            let ghost pre = views(parts@.subrange(0, i as int));
            let ghost next = views(parts@.subrange(0, i + 1));
            assert(next.drop_last() =~= pre);
            assert(next.last() == parts@[i as int]@);
            let t = trim(parts[i].as_str());
            if t.unicode_len() > 0 {
                let ghost before = views(out@);
                out.push(parts[i].clone());
                assert(views(out@) =~= before.push(parts@[i as int]@));
            }
            i += 1;
        }
        assert(parts@.subrange(0, parts@.len() as int) =~= parts@);
        out
    }

    pub fn expand_origin(segment: &str, origin: &str) -> (r: Option<String>)
        ensures
            match r {
                Some(p) => expand_origin_spec(segment@, origin@) == Some(p@),
                None => expand_origin_spec(segment@, origin@) is None,
            },
    {
        let t = trim(segment);
        if t.unicode_len() == 0 {
            return None;
        }
        let pat1 = "$ORIGIN";
        let pat2 = "${ORIGIN}";
        proof {
            reveal_strlit("$ORIGIN");
            reveal_strlit("${ORIGIN}");
        }
        let first = replace(segment, pat1, origin);
        let replaced = replace(first.as_str(), pat2, origin);
        if replaced.unicode_len() == 0 {
            None
        } else if is_absolute_str(replaced.as_str()) {
            Some(replaced)
        } else {
            Some(join_path(origin, replaced.as_str()))
        }
    }

    pub fn should_skip(name: &str) -> (r: bool)
        ensures
            r == should_skip_spec(name@),
    {
        starts_with(name, "linux-vdso") || starts_with(name, "ld-linux")
    }

    pub fn compute_search_paths(&self, binary: &str, metadata: &ElfMetadata) -> (r: Vec<String>)
        ensures
            views(r@) == self.search_paths(binary@, metadata@),
    {
        let origin = parent_of(binary);
        let preferred = if metadata.runpaths.len() == 0 {
            &metadata.rpaths
        } else {
            &metadata.runpaths
        };
        let ghost pv = views(preferred@);
        let mut paths: Vec<String> = Vec::new();
        let mut i: usize = 0;
        while i < preferred.len()
            invariant
                i <= preferred@.len(),
                pv == views(preferred@),
                views(paths@) == expand_segments(pv.subrange(0, i as int), origin@),
            decreases preferred@.len() - i,
        {
            assert(pv.subrange(0, i + 1).drop_last() =~= pv.subrange(0, i as int));
            let e = Self::expand_origin(preferred[i].as_str(), origin.as_str());
            match e {
                Some(p) => {
                    let ghost before = views(paths@);
                    paths.push(p);
                    assert(views(paths@) =~= before.push(p@));
                },
                None => {},
            }
            i += 1;
        }
        assert(pv.subrange(0, pv.len() as int) =~= pv);
        let ghost expanded = views(paths@);
        let mut j: usize = 0;
        while j < self.ld_library_paths.len()
            invariant
                j <= self.ld_library_paths@.len(),
                views(paths@) == expanded + views(self.ld_library_paths@.subrange(0, j as int)),
            decreases self.ld_library_paths@.len() - j,
        {
            let ghost before = views(paths@);
            paths.push(self.ld_library_paths[j].clone());
            assert(views(paths@) =~= before.push(self.ld_library_paths@[j as int]@));
            assert(views(self.ld_library_paths@.subrange(0, j + 1)) =~= views(
                self.ld_library_paths@.subrange(0, j as int),
            ).push(self.ld_library_paths@[j as int]@));
            j += 1;
        }
        assert(self.ld_library_paths@.subrange(0, self.ld_library_paths@.len() as int)
            =~= self.ld_library_paths@);
        let ghost with_ld = views(paths@);
        paths.push(origin);
        assert(views(paths@) =~= with_ld.push(origin@));
        let ghost with_origin = views(paths@);
        let mut k: usize = 0;
        while k < self.default_paths.len()
            invariant
                k <= self.default_paths@.len(),
                views(paths@) == with_origin + views(self.default_paths@.subrange(0, k as int)),
            decreases self.default_paths@.len() - k,
        {
            let ghost before = views(paths@);
            paths.push(self.default_paths[k].clone());
            assert(views(paths@) =~= before.push(self.default_paths@[k as int]@));
            assert(views(self.default_paths@.subrange(0, k + 1)) =~= views(
                self.default_paths@.subrange(0, k as int),
            ).push(self.default_paths@[k as int]@));
            k += 1;
        }
        assert(self.default_paths@.subrange(0, self.default_paths@.len() as int)
            =~= self.default_paths@);
        assert(views(paths@) =~= self.search_paths(binary@, metadata@));
        paths
    }
}

/// The sources of a list of files, in order.
pub open spec fn file_sources(files: Seq<ResolvedFile>) -> Seq<Seq<char>> {
    files.map_values(|f: ResolvedFile| f.source@)
}

/// No source twice, and each destination determined by its source.
pub open spec fn files_wf(files: Seq<ResolvedFile>) -> bool {
    &&& file_sources(files).no_duplicates()
    &&& forall|i: int|
        0 <= i < files.len() ==> (#[trigger] files[i]).destination@ == payload_destination(
            files[i].source@,
        )
}

/// `new` keeps every file of `old` in place.
pub open spec fn extends(new: Seq<ResolvedFile>, old: Seq<ResolvedFile>) -> bool {
    old.len() <= new.len() && forall|i: int| 0 <= i < old.len() ==> new[i] == old[i]
}

/// `name`, needed by `node`, is provided by the kernel or the linker, or
/// the search finds it and its canonical form is among `within`.
pub open spec fn dep_resolved(
    b: ClosureBuilder,
    host: HostFacts,
    node: Seq<char>,
    m: ElfMetadataView,
    name: Seq<char>,
    within: Set<Seq<char>>,
) -> bool {
    should_skip_spec(name) || match first_existing(candidates(name, b.search_paths(node, m)), host) {
        Search::Found(p) => match canonical_of(host, p) {
            Some(Some(c)) => within.contains(c),
            _ => false,
        },
        _ => false,
    }
}

/// The metadata of `node` is known and each library it needs resolves
/// into `within`.
pub open spec fn node_closed(
    b: ClosureBuilder,
    host: HostFacts,
    node: Seq<char>,
    within: Set<Seq<char>>,
) -> bool {
    match metadata_of(host, node) {
        Some(m) => forall|k: int|
            0 <= k < m.needed.len() ==> dep_resolved(b, host, node, m, #[trigger] m.needed[k], within),
        None => false,
    }
}

/// Every node of `nodes` has all its libraries inside `nodes`.
pub open spec fn is_closed(b: ClosureBuilder, host: HostFacts, nodes: Set<Seq<char>>) -> bool {
    forall|x: Seq<char>| nodes.contains(x) ==> node_closed(b, host, x, nodes)
}

/// The layout of one entry: the binary under `payload/`, its directory
/// first among the library directories, a linker destination whenever a
/// linker is required.
pub open spec fn plan_wf(p: EntryBundlePlan) -> bool {
    &&& p.binary_destination@ == payload_destination(p.binary_source@)
    &&& p.library_dirs@.len() >= 1
    &&& p.library_dirs@[0]@ == parent_dir(p.binary_destination@)
    &&& views(p.library_dirs@).no_duplicates()
    &&& (p.requires_linker <==> p.linker_source is Some)
    &&& (p.requires_linker <==> p.linker_destination is Some)
    &&& (p.requires_linker ==> p.linker_destination->0@ == payload_destination(
        p.linker_source->0@,
    ))
}

/// What an error says of the host holds there.
pub open spec fn error_sound(b: ClosureBuilder, host: HostFacts, e: ClosureError) -> bool {
    match e {
        ClosureError::Io { path, .. } => canonical_of(host, path@) == Some(None::<Seq<char>>),
        ClosureError::ElfParse { path, .. } => lookup(host.elf@, path@) matches Some(Err(_)),
        ClosureError::MissingInterpreter { path } => match metadata_of(host, path@) {
            Some(m) => no_interpreter(m),
            None => false,
        },
        ClosureError::LibraryNotFound { name, needed_by } => match metadata_of(host, needed_by@) {
            Some(m) => m.needed.contains(name@) && !should_skip_spec(name@) && first_existing(
                candidates(name@, b.search_paths(needed_by@, m)),
                host,
            ) == Search::Missing,
            None => false,
        },
    }
}

/// The file at `p` canonicalizes to an ELF file without PT_INTERP.
pub open spec fn lacks_interpreter(host: HostFacts, p: Seq<char>) -> bool {
    match canonical_of(host, p) {
        Some(Some(c)) => match metadata_of(host, c) {
            Some(m) => no_interpreter(m),
            None => false,
        },
        _ => false,
    }
}

/// `r` is the `MissingInterpreter` error naming the canonical form of `p`.
pub open spec fn reports_missing_interpreter<T>(
    r: Result<T, BuildStop>,
    host: HostFacts,
    p: Seq<char>,
) -> bool {
    match r {
        Err(BuildStop::Failed(ClosureError::MissingInterpreter { path })) => canonical_of(host, p)
            == Some(Some(path@)),
        _ => false,
    }
}

pub open spec fn stop_sound(b: ClosureBuilder, host: HostFacts, s: BuildStop) -> bool {
    match s {
        BuildStop::Failed(e) => error_sound(b, host, e),
        BuildStop::NeedFact(q) => !crate::facts::is_known(host, q),
    }
}

/// The canonical paths that the host facts record.
pub open spec fn canon_image(host: HostFacts) -> Set<Seq<char>> {
    host.canonical@.map_values(
        |e: (String, Result<String, String>)|
            match e.1 {
                Ok(c) => c@,
                Err(_) => Seq::empty(),
            },
    ).to_set()
}

proof fn lemma_unknown_unrecorded(cands: Seq<Seq<char>>, host: HostFacts)
    ensures
        first_existing(cands, host) matches Search::Unknown(p) ==> exists_of(host, p) is None,
    decreases cands.len(),
{
    if cands.len() > 0 && exists_of(host, cands[0]) == Some(false) {
        lemma_unknown_unrecorded(cands.drop_first(), host);
    }
}

proof fn lemma_lookup_canonical_in_image(s: Seq<(String, Result<String, String>)>, p: Seq<char>)
    requires
        lookup(s, p) matches Some(Ok(_)),
    ensures
        exists|i: int| 0 <= i < s.len() && s[i].1 == lookup(s, p)->0,
    decreases s.len(),
{
    if s.last().0@ != p {
        lemma_lookup_canonical_in_image(s.drop_last(), p);
        let i = choose|i: int| 0 <= i < s.drop_last().len() && s.drop_last()[i].1 == lookup(s, p)->0;
        assert(s[i] == s.drop_last()[i]);
    } else {
        assert(s[s.len() - 1].1 == lookup(s, p)->0);
    }
}

proof fn lemma_canonical_in_image(host: HostFacts, p: Seq<char>)
    requires
        canonical_of(host, p) matches Some(Some(_)),
    ensures
        canon_image(host).contains(canonical_of(host, p)->0->0),
{
    lemma_lookup_canonical_in_image(host.canonical@, p);
    let s = host.canonical@;
    let i = choose|i: int| 0 <= i < s.len() && s[i].1 == lookup(s, p)->0;
    let img = s.map_values(
        |e: (String, Result<String, String>)|
            match e.1 {
                Ok(c) => c@,
                Err(_) => Seq::empty(),
            },
    );
    assert(img[i] == canonical_of(host, p)->0->0);
    assert(img.contains(img[i]));
}

proof fn lemma_order_bounded(host: HostFacts, order: Seq<Seq<char>>)
    requires
        order.no_duplicates(),
        forall|x: Seq<char>| order.contains(x) ==> canon_image(host).contains(x),
    ensures
        order.len() <= host.canonical@.len(),
{
    let img = host.canonical@.map_values(
        |e: (String, Result<String, String>)|
            match e.1 {
                Ok(c) => c@,
                Err(_) => Seq::empty(),
            },
    );
    order.unique_seq_to_set();
    img.lemma_cardinality_of_set();
    assert(order.to_set().subset_of(img.to_set()));
    vstd::set_lib::lemma_len_subset(order.to_set(), img.to_set());
}

proof fn lemma_dep_mono(
    b: ClosureBuilder,
    host: HostFacts,
    node: Seq<char>,
    m: ElfMetadataView,
    name: Seq<char>,
    s1: Set<Seq<char>>,
    s2: Set<Seq<char>>,
)
    requires
        dep_resolved(b, host, node, m, name, s1),
        s1.subset_of(s2),
    ensures
        dep_resolved(b, host, node, m, name, s2),
{
}

proof fn lemma_node_mono(
    b: ClosureBuilder,
    host: HostFacts,
    node: Seq<char>,
    s1: Set<Seq<char>>,
    s2: Set<Seq<char>>,
)
    requires
        node_closed(b, host, node, s1),
        s1.subset_of(s2),
    ensures
        node_closed(b, host, node, s2),
{
    let m = metadata_of(host, node)->0;
    assert forall|k: int| 0 <= k < m.needed.len() implies dep_resolved(
        b,
        host,
        node,
        m,
        #[trigger] m.needed[k],
        s2,
    ) by {
        lemma_dep_mono(b, host, node, m, m.needed[k], s1, s2);
    }
}

proof fn lemma_closed_union(b: ClosureBuilder, host: HostFacts, s1: Set<Seq<char>>, s2: Set<Seq<char>>)
    requires
        is_closed(b, host, s1),
        is_closed(b, host, s2),
    ensures
        is_closed(b, host, s1.union(s2)),
{
    assert forall|x: Seq<char>| s1.union(s2).contains(x) implies node_closed(
        b,
        host,
        x,
        s1.union(s2),
    ) by {
        if s1.contains(x) {
            lemma_node_mono(b, host, x, s1, s1.union(s2));
        } else {
            lemma_node_mono(b, host, x, s2, s1.union(s2));
        }
    }
}

proof fn lemma_sources_grow(new: Seq<ResolvedFile>, old: Seq<ResolvedFile>)
    requires
        extends(new, old),
    ensures
        forall|x: Seq<char>| file_sources(old).contains(x) ==> file_sources(new).contains(x),
{
    assert forall|x: Seq<char>| file_sources(old).contains(x) implies file_sources(new).contains(x) by {
        let i = choose|i: int| 0 <= i < file_sources(old).len() && file_sources(old)[i] == x;
        assert(file_sources(new)[i] == x);
    }
}

/// The canonical file that `name`, needed by `node`, resolves to.
pub open spec fn dep_target(
    b: ClosureBuilder,
    host: HostFacts,
    node: Seq<char>,
    m: ElfMetadataView,
    name: Seq<char>,
) -> Option<Seq<char>> {
    if should_skip_spec(name) {
        None
    } else {
        match first_existing(candidates(name, b.search_paths(node, m)), host) {
            Search::Found(p) => match canonical_of(host, p) {
                Some(Some(c)) => Some(c),
                _ => None,
            },
            _ => None,
        }
    }
}

/// `y` is a library that `x` needs.
pub open spec fn is_dep(b: ClosureBuilder, host: HostFacts, x: Seq<char>, y: Seq<char>) -> bool {
    match metadata_of(host, x) {
        Some(m) => exists|k: int|
            0 <= k < m.needed.len() && #[trigger] dep_target(b, host, x, m, m.needed[k]) == Some(y),
        None => false,
    }
}

/// `x` is reached from `roots` in at most `depth` library steps.
pub open spec fn reaches(
    b: ClosureBuilder,
    host: HostFacts,
    roots: Set<Seq<char>>,
    x: Seq<char>,
    depth: nat,
) -> bool
    decreases depth,
{
    if depth == 0 {
        roots.contains(x)
    } else {
        reaches(b, host, roots, x, (depth - 1) as nat) || exists|y: Seq<char>|
            #[trigger] is_dep(b, host, y, x) && reaches(b, host, roots, y, (depth - 1) as nat)
    }
}

pub open spec fn reachable(b: ClosureBuilder, host: HostFacts, roots: Set<Seq<char>>, x: Seq<char>) -> bool {
    exists|d: nat| reaches(b, host, roots, x, d)
}

proof fn lemma_reaches_mono(
    b: ClosureBuilder,
    host: HostFacts,
    roots_a: Set<Seq<char>>,
    roots_b: Set<Seq<char>>,
    x: Seq<char>,
    d: nat,
)
    requires
        reaches(b, host, roots_a, x, d),
        roots_a.subset_of(roots_b),
    ensures
        reaches(b, host, roots_b, x, d),
    decreases d,
{
    if d > 0 {
        if reaches(b, host, roots_a, x, (d - 1) as nat) {
            lemma_reaches_mono(b, host, roots_a, roots_b, x, (d - 1) as nat);
        } else {
            let y = choose|y: Seq<char>|
                #[trigger] is_dep(b, host, y, x) && reaches(b, host, roots_a, y, (d - 1) as nat);
            lemma_reaches_mono(b, host, roots_a, roots_b, y, (d - 1) as nat);
        }
    }
}

proof fn lemma_reaches_step(b: ClosureBuilder, host: HostFacts, roots: Set<Seq<char>>, y: Seq<char>, x: Seq<char>, d: nat)
    requires
        reaches(b, host, roots, y, d),
        is_dep(b, host, y, x),
    ensures
        reaches(b, host, roots, x, d + 1),
{
    assert(reaches(b, host, roots, x, (d + 1) as nat));
}

/// A closed set that holds the roots holds everything reached from them.
pub proof fn lemma_closed_holds_reached(
    b: ClosureBuilder,
    host: HostFacts,
    roots: Set<Seq<char>>,
    n: Set<Seq<char>>,
    x: Seq<char>,
    d: nat,
)
    requires
        is_closed(b, host, n),
        roots.subset_of(n),
        reaches(b, host, roots, x, d),
    ensures
        n.contains(x),
    decreases d,
{
    if d > 0 {
        if reaches(b, host, roots, x, (d - 1) as nat) {
            lemma_closed_holds_reached(b, host, roots, n, x, (d - 1) as nat);
        } else {
            let y = choose|y: Seq<char>|
                #[trigger] is_dep(b, host, y, x) && reaches(b, host, roots, y, (d - 1) as nat);
            lemma_closed_holds_reached(b, host, roots, n, y, (d - 1) as nat);
            let m = metadata_of(host, y)->0;
            let k = choose|k: int|
                0 <= k < m.needed.len() && #[trigger] dep_target(b, host, y, m, m.needed[k]) == Some(x);
            assert(node_closed(b, host, y, n));
            assert(dep_resolved(b, host, y, m, m.needed[k], n));
        }
    }
}

/// The metadata names no interpreter, or an empty one.
pub open spec fn no_interpreter(m: ElfMetadataView) -> bool {
    m.interpreter is None || m.interpreter->0.len() == 0
}

/// The canonical path of the interpreter that `binary` names.
pub open spec fn linker_of(host: HostFacts, binary: Seq<char>) -> Option<Seq<char>> {
    match metadata_of(host, binary) {
        Some(m) => match m.interpreter {
            Some(ip) => if ip.len() == 0 {
                None
            } else {
                match canonical_of(host, ip) {
                    Some(Some(c)) => Some(c),
                    _ => None,
                }
            },
            None => None,
        },
        None => None,
    }
}

/// `p` is a candidate of a library search made from `x`.
pub open spec fn searched_from(b: ClosureBuilder, host: HostFacts, x: Seq<char>, p: Seq<char>) -> bool {
    match metadata_of(host, x) {
        Some(m) => exists|k: int|
            0 <= k < m.needed.len() && !should_skip_spec(m.needed[k]) && #[trigger] candidates(
                m.needed[k],
                b.search_paths(x, m),
            ).contains(p),
        None => false,
    }
}

/// `p` is a candidate of a library search made from a node reached from
/// `roots`.
pub open spec fn searched(b: ClosureBuilder, host: HostFacts, roots: Set<Seq<char>>, p: Seq<char>) -> bool {
    exists|x: Seq<char>| reachable(b, host, roots, x) && #[trigger] searched_from(b, host, x, p)
}

/// `p` is the interpreter named by one of `roots`.
pub open spec fn names_interpreter(host: HostFacts, roots: Set<Seq<char>>, p: Seq<char>) -> bool {
    exists|c: Seq<char>|
        roots.contains(c) && (#[trigger] metadata_of(host, c) matches Some(m) && m.interpreter == Some(p))
}

/// A path whose canonical form the walk from `paths` (canonically
/// `roots`) needs.
pub open spec fn needs_canonical(
    b: ClosureBuilder,
    host: HostFacts,
    paths: Set<Seq<char>>,
    roots: Set<Seq<char>>,
    p: Seq<char>,
) -> bool {
    paths.contains(p) || names_interpreter(host, roots, p) || searched(b, host, roots, p)
}

/// A stop that concerns the walk from `paths`: every error and every
/// missing fact is about an entry, its interpreter, a node reached from
/// the entries, or a candidate searched from such a node.
pub open spec fn stop_relevant(
    b: ClosureBuilder,
    host: HostFacts,
    paths: Set<Seq<char>>,
    roots: Set<Seq<char>>,
    s: BuildStop,
) -> bool {
    match s {
        BuildStop::NeedFact(HostQuery::Canonicalize(p)) => needs_canonical(b, host, paths, roots, p@),
        BuildStop::NeedFact(HostQuery::Exists(p)) => searched(b, host, roots, p@),
        BuildStop::NeedFact(HostQuery::ReadElf(p)) => reachable(b, host, roots, p@),
        BuildStop::Failed(ClosureError::Io { path, .. }) => needs_canonical(b, host, paths, roots, path@),
        BuildStop::Failed(ClosureError::ElfParse { path, .. }) => reachable(b, host, roots, path@),
        BuildStop::Failed(ClosureError::MissingInterpreter { path }) => roots.contains(path@),
        BuildStop::Failed(ClosureError::LibraryNotFound { needed_by, .. }) => reachable(
            b,
            host,
            roots,
            needed_by@,
        ),
    }
}

/// The canonical form of `p` as a set of zero or one roots.
pub open spec fn root_of(host: HostFacts, p: Seq<char>) -> Set<Seq<char>> {
    match canonical_of(host, p) {
        Some(Some(c)) => set![c],
        _ => Set::empty(),
    }
}

proof fn lemma_first_existing_member(cands: Seq<Seq<char>>, host: HostFacts)
    ensures
        first_existing(cands, host) matches Search::Found(p) ==> cands.contains(p),
        first_existing(cands, host) matches Search::Unknown(p) ==> cands.contains(p),
    decreases cands.len(),
{
    if cands.len() > 0 {
        lemma_first_existing_member(cands.drop_first(), host);
        if exists_of(host, cands[0]) == Some(false) {
            match first_existing(cands.drop_first(), host) {
                Search::Found(p) => {
                    let i = choose|i: int| 0 <= i < cands.drop_first().len() && cands.drop_first()[i] == p;
                    assert(cands[i + 1] == p);
                },
                Search::Unknown(p) => {
                    let i = choose|i: int| 0 <= i < cands.drop_first().len() && cands.drop_first()[i] == p;
                    assert(cands[i + 1] == p);
                },
                _ => {},
            }
        } else {
            assert(cands[0] == cands[0]);
        }
    }
}

proof fn lemma_relevant_mono(
    b: ClosureBuilder,
    host: HostFacts,
    paths_a: Set<Seq<char>>,
    roots_a: Set<Seq<char>>,
    paths_b: Set<Seq<char>>,
    roots_b: Set<Seq<char>>,
    s: BuildStop,
)
    requires
        stop_relevant(b, host, paths_a, roots_a, s),
        paths_a.subset_of(paths_b),
        roots_a.subset_of(roots_b),
    ensures
        stop_relevant(b, host, paths_b, roots_b, s),
{
    assert forall|x: Seq<char>| reachable(b, host, roots_a, x) implies reachable(b, host, roots_b, x) by {
        let d = choose|d: nat| reaches(b, host, roots_a, x, d);
        lemma_reaches_mono(b, host, roots_a, roots_b, x, d);
    }
    assert forall|p: Seq<char>| searched(b, host, roots_a, p) implies searched(b, host, roots_b, p) by {
        let x = choose|x: Seq<char>| reachable(b, host, roots_a, x) && #[trigger] searched_from(b, host, x, p);
        assert(reachable(b, host, roots_b, x));
    }
    assert forall|p: Seq<char>| names_interpreter(host, roots_a, p) implies names_interpreter(host, roots_b, p) by {
        let c = choose|c: Seq<char>|
            roots_a.contains(c) && (#[trigger] metadata_of(host, c) matches Some(m) && m.interpreter == Some(p));
        assert(roots_b.contains(c));
    }
}

/// `o` followed by the elements of `d` that it does not hold yet, each
/// at its first occurrence.
pub open spec fn add_new(o: Seq<Seq<char>>, d: Seq<Seq<char>>) -> Seq<Seq<char>>
    decreases d.len(),
{
    if d.len() == 0 {
        o
    } else {
        let p = add_new(o, d.drop_last());
        if p.contains(d.last()) {
            p
        } else {
            p.push(d.last())
        }
    }
}

/// The libraries that the names `names`, needed by `node`, resolve to, in
/// order; names provided by the kernel or the linker give nothing.
pub open spec fn dep_targets(
    b: ClosureBuilder,
    host: HostFacts,
    node: Seq<char>,
    m: ElfMetadataView,
    names: Seq<Seq<char>>,
) -> Seq<Seq<char>>
    decreases names.len(),
{
    if names.len() == 0 {
        Seq::empty()
    } else {
        let init = dep_targets(b, host, node, m, names.drop_last());
        match dep_target(b, host, node, m, names.last()) {
            Some(c) => init.push(c),
            None => init,
        }
    }
}

/// The libraries that `x` needs, resolved, in the order of its `needed`
/// list.
pub open spec fn node_targets(b: ClosureBuilder, host: HostFacts, x: Seq<char>) -> Seq<Seq<char>> {
    match metadata_of(host, x) {
        Some(m) => dep_targets(b, host, x, m, m.needed),
        None => Seq::empty(),
    }
}

/// A breadth-first walk: the nodes in the order they are first met, and
/// every library located so far, in the order it was located.
pub struct WalkState {
    pub order: Seq<Seq<char>>,
    pub located: Seq<Seq<char>>,
}

/// The walk from `bin` after `k` nodes have been processed.
pub open spec fn walk(b: ClosureBuilder, host: HostFacts, bin: Seq<char>, k: nat) -> WalkState
    decreases k,
{
    if k == 0 {
        WalkState { order: seq![bin], located: Seq::empty() }
    } else {
        let s = walk(b, host, bin, (k - 1) as nat);
        if k - 1 < s.order.len() {
            let t = node_targets(b, host, s.order[k - 1]);
            WalkState { order: add_new(s.order, t), located: s.located + t }
        } else {
            s
        }
    }
}

/// The number of nodes of the finished walk from `bin`: the step at
/// which every node met has been processed.
pub open spec fn walk_len(b: ClosureBuilder, host: HostFacts, bin: Seq<char>) -> nat {
    choose|k: nat| walk(b, host, bin, k).order.len() == k
}

/// Every library that the finished walk from `bin` locates, in order.
pub open spec fn walk_located(b: ClosureBuilder, host: HostFacts, bin: Seq<char>) -> Seq<Seq<char>> {
    walk(b, host, bin, walk_len(b, host, bin)).located
}

/// The library directories of a plan: the binary's own directory, then
/// the directory of each located library's destination, in the order the
/// walk first meets them.
pub open spec fn library_dirs_spec(b: ClosureBuilder, host: HostFacts, bin: Seq<char>) -> Seq<Seq<char>> {
    add_new(
        seq![parent_dir(payload_destination(bin))],
        walk_located(b, host, bin).map_values(|c: Seq<char>| parent_dir(payload_destination(c))),
    )
}

proof fn lemma_add_one(o: Seq<Seq<char>>, x: Seq<char>)
    ensures
        add_new(o, seq![x]) == if o.contains(x) {
            o
        } else {
            o.push(x)
        },
{
    assert(seq![x].drop_last() =~= Seq::<Seq<char>>::empty());
    assert(add_new(o, seq![x].drop_last()) == o);
    assert(seq![x].last() == x);
}

/// Adding `d` and then `x` is adding `d` followed by `x`.
proof fn lemma_add_push(o: Seq<Seq<char>>, d: Seq<Seq<char>>, x: Seq<char>)
    ensures
        add_new(o, d.push(x)) == add_new(add_new(o, d), seq![x]),
{
    assert(d.push(x).drop_last() =~= d);
    lemma_add_one(add_new(o, d), x);
}

proof fn lemma_walk_stable(b: ClosureBuilder, host: HostFacts, bin: Seq<char>, k: nat, k2: nat)
    requires
        walk(b, host, bin, k).order.len() <= k,
        k <= k2,
    ensures
        walk(b, host, bin, k2) == walk(b, host, bin, k),
    decreases k2,
{
    if k2 > k {
        lemma_walk_stable(b, host, bin, k, (k2 - 1) as nat);
    }
}

proof fn lemma_walk_len(b: ClosureBuilder, host: HostFacts, bin: Seq<char>, k: nat)
    requires
        walk(b, host, bin, k).order.len() == k,
    ensures
        walk_len(b, host, bin) == k,
{
    let k2 = walk_len(b, host, bin);
    assert(walk(b, host, bin, k2).order.len() == k2);
    if k < k2 {
        lemma_walk_stable(b, host, bin, k, k2);
    } else if k2 < k {
        lemma_walk_stable(b, host, bin, k2, k);
    }
}

/// Whether `v` holds a string equal to `s`.
fn contains_str(v: &Vec<String>, s: &str) -> (r: bool)
    ensures
        r == views(v@).contains(s@),
{
    let mut i: usize = 0;
    while i < v.len()
        invariant
            i <= v@.len(),
            forall|k: int| 0 <= k < i ==> v@[k]@ != s@,
        decreases v@.len() - i,
    {
        if text_eq(v[i].as_str(), s) {
            assert(views(v@)[i as int] == s@);
            return true;
        }
        i += 1;
    }
    assert(!views(v@).contains(s@)) by {
        if views(v@).contains(s@) {
            let k = choose|k: int| 0 <= k < views(v@).len() && views(v@)[k] == s@;
            assert(v@[k]@ == s@);
        }
    }
    false
}

/// Appends `s` unless an equal string is already there.
fn push_unique(v: &mut Vec<String>, s: String)
    ensures
        views(final(v)@) == if views(old(v)@).contains(s@) {
            views(old(v)@)
        } else {
            views(old(v)@).push(s@)
        },
{
    if !contains_str(v, s.as_str()) {
        let ghost before = views(v@);
        v.push(s);
        assert(views(v@) =~= before.push(s@));
    }
}

/// The destination of `source`, registering the file on first sight.
fn ensure_file(files: &mut Vec<ResolvedFile>, source: &str) -> (dest: String)
    requires
        files_wf(old(files)@),
    ensures
        files_wf(final(files)@),
        extends(final(files)@, old(files)@),
        dest@ == payload_destination(source@),
        file_sources(final(files)@).contains(source@),
        final(files)@.len() == old(files)@.len() || (final(files)@.len() == old(files)@.len() + 1
            && final(files)@[old(files)@.len() as int].source@ == source@),
        file_sources(final(files)@) == add_new(file_sources(old(files)@), seq![source@]),
{
    let mut i: usize = 0;
    while i < files.len()
        invariant
            i <= files@.len(),
            files@ == old(files)@,
            files_wf(files@),
            forall|k: int| 0 <= k < i ==> files@[k].source@ != source@,
        decreases files@.len() - i,
    {
        if text_eq(files[i].source.as_str(), source) {
            assert(file_sources(files@)[i as int] == source@);
            proof {
                lemma_add_one(file_sources(files@), source@);
            }
            return files[i].destination.clone();
        }
        i += 1;
    }
    let ghost before = files@;
    let dest = destination_for(source);
    files.push(ResolvedFile { source: source.to_owned(), destination: dest.clone() });
    assert(file_sources(files@) =~= file_sources(before).push(source@));
    assert(!file_sources(before).contains(source@)) by {
        if file_sources(before).contains(source@) {
            let k = choose|k: int| 0 <= k < file_sources(before).len() && file_sources(before)[k] == source@;
            assert(before[k].source@ == source@);
        }
    }
    assert(file_sources(files@)[before.len() as int] == source@);
    proof {
        lemma_add_one(file_sources(before), source@);
    }
    dest
}

impl ClosureBuilder {
    /// The first candidate for `name` that exists, searching the absolute
    /// name itself and then `search_paths` in order; a later directory is
    /// looked at only when every earlier candidate is known not to exist.
    pub fn locate_library(name: &str, search_paths: &Vec<String>, host: &HostFacts) -> (r: Result<
        Option<String>,
        HostQuery,
    >)
        ensures
            match first_existing(candidates(name@, views(search_paths@)), *host) {
                Search::Found(p) => r matches Ok(Some(x)) && x@ == p,
                Search::Missing => r matches Ok(None),
                Search::Unknown(p) => r matches Err(HostQuery::Exists(x)) && x@ == p,
            },
    {
        let ghost cands = candidates(name@, views(search_paths@));
        let ghost dirs_c = views(search_paths@).map_values(|d: Seq<char>| path_join(d, name@));
        if is_absolute_str(name) {
            assert(cands[0] == name@);
            match find_fact(&host.existing, name) {
                None => {
                    return Err(HostQuery::Exists(name.to_owned()));
                },
                Some(k) => {
                    if host.existing[k].1 {
                        return Ok(Some(name.to_owned()));
                    }
                },
            }
            assert(cands.drop_first() =~= dirs_c);
        } else {
            assert(cands =~= dirs_c);
        }
        let mut i: usize = 0;
        assert(dirs_c.subrange(0, dirs_c.len() as int) =~= dirs_c);
        while i < search_paths.len()
            invariant
                i <= search_paths@.len(),
                dirs_c.len() == search_paths@.len(),
                cands == candidates(name@, views(search_paths@)),
                dirs_c == views(search_paths@).map_values(|d: Seq<char>| path_join(d, name@)),
                first_existing(cands, *host) == first_existing(
                    dirs_c.subrange(i as int, dirs_c.len() as int),
                    *host,
                ),
            decreases search_paths@.len() - i,
        {
            let path = join_path(search_paths[i].as_str(), name);
            let ghost rest = dirs_c.subrange(i as int, dirs_c.len() as int);
            assert(rest[0] == path@);
            assert(rest.drop_first() =~= dirs_c.subrange(i + 1, dirs_c.len() as int));
            assert(rest.len() > 0);
            match find_fact(&host.existing, path.as_str()) {
                None => {
                    assert(exists_of(*host, rest[0]) is None);
                    assert(first_existing(rest, *host) == Search::Unknown(path@));
                    return Err(HostQuery::Exists(path));
                },
                Some(k) => {
                    if host.existing[k].1 {
                        assert(exists_of(*host, rest[0]) == Some(true));
                        assert(first_existing(rest, *host) == Search::Found(path@));
                        return Ok(Some(path));
                    }
                },
            }
            i += 1;
        }
        Ok(None)
    }

    fn canonicalize(&self, path: &str, host: &HostFacts) -> (r: Result<String, BuildStop>)
        ensures
            match r {
                Ok(c) => canonical_of(*host, path@) == Some(Some(c@)),
                Err(s) => stop_sound(*self, *host, s) && match s {
                    BuildStop::NeedFact(HostQuery::Canonicalize(p)) => p@ == path@,
                    BuildStop::Failed(ClosureError::Io { path: p, .. }) => p@ == path@,
                    _ => false,
                },
            },
            r is Ok <==> canonical_of(*host, path@) matches Some(Some(_)),
    {
        match find_fact(&host.canonical, path) {
            None => Err(BuildStop::NeedFact(HostQuery::Canonicalize(path.to_owned()))),
            Some(k) => match &host.canonical[k].1 {
                Ok(c) => Ok(c.clone()),
                Err(message) => Err(
                    BuildStop::Failed(
                        ClosureError::Io { path: path.to_owned(), message: message.clone() },
                    ),
                ),
            },
        }
    }

    fn load_metadata<'a>(&self, path: &str, host: &'a HostFacts) -> (r: Result<
        &'a ElfMetadata,
        BuildStop,
    >)
        ensures
            match r {
                Ok(m) => metadata_of(*host, path@) == Some(m@),
                Err(s) => stop_sound(*self, *host, s) && match s {
                    BuildStop::NeedFact(HostQuery::ReadElf(p)) => p@ == path@,
                    BuildStop::Failed(ClosureError::ElfParse { path: p, .. }) => p@ == path@,
                    _ => false,
                },
            },
            r is Ok <==> metadata_of(*host, path@) is Some,
    {
        match find_fact(&host.elf, path) {
            None => Err(BuildStop::NeedFact(HostQuery::ReadElf(path.to_owned()))),
            Some(k) => match &host.elf[k].1 {
                Ok(m) => Ok(m),
                Err(e) => Err(
                    BuildStop::Failed(ClosureError::ElfParse { path: path.to_owned(), source: e.clone() }),
                ),
            },
        }
    }
}

impl ClosureBuilder {
    /// Walks the libraries of one entry breadth first, registering each
    /// file met; returns the entry's plan and the nodes walked.
    fn build_entry(&self, entry: &BundleEntry, files: &mut Vec<ResolvedFile>, host: &HostFacts) -> (r: (
        Result<EntryBundlePlan, BuildStop>,
        Ghost<Seq<Seq<char>>>,
    ))
        requires
            files_wf(old(files)@),
        ensures
            files_wf(final(files)@),
            extends(final(files)@, old(files)@),
            match r.0 {
                Ok(plan) => {
                    &&& plan_wf(plan)
                    &&& plan.requires_linker
                    &&& plan.display_name@ == entry.display_name@
                    &&& !lacks_interpreter(*host, entry.path@)
                    &&& canonical_of(*host, entry.path@) == Some(Some(plan.binary_source@))
                    &&& file_sources(final(files)@).contains(plan.linker_source->0@)
                    &&& is_closed(*self, *host, r.1@.to_set())
                    &&& r.1@.len() > 0
                    &&& r.1@[0] == plan.binary_source@
                    &&& forall|x: Seq<char>|
                        r.1@.contains(x) ==> file_sources(final(files)@).contains(x)
                    &&& forall|x: Seq<char>|
                        r.1@.contains(x) ==> reachable(*self, *host, set![plan.binary_source@], x)
                    &&& forall|q: int|
                        old(files)@.len() <= q < final(files)@.len() ==> r.1@.contains(
                            #[trigger] final(files)@[q].source@,
                        ) || final(files)@[q].source@ == plan.linker_source->0@
                    &&& linker_of(*host, plan.binary_source@) == Some(plan.linker_source->0@)
                    &&& views(plan.library_dirs@) == library_dirs_spec(*self, *host, plan.binary_source@)
                    &&& file_sources(final(files)@) == add_new(
                        file_sources(old(files)@),
                        seq![plan.binary_source@, plan.linker_source->0@] + walk_located(
                            *self,
                            *host,
                            plan.binary_source@,
                        ),
                    )
                },
                Err(s) => stop_sound(*self, *host, s) && stop_relevant(
                    *self,
                    *host,
                    set![entry.path@],
                    root_of(*host, entry.path@),
                    s,
                ),
            },
            lacks_interpreter(*host, entry.path@) ==> reports_missing_interpreter(
                r.0,
                *host,
                entry.path@,
            ),
    {
        let ghost start = files@;
        let entry_source = match self.canonicalize(entry.path.as_str(), host) {
            Ok(c) => c,
            Err(e) => {
                return (Err(e), Ghost(Seq::empty()));
            },
        };
        proof {
            assert(reaches(*self, *host, set![entry_source@], entry_source@, 0));
            assert(root_of(*host, entry.path@) == set![entry_source@]);
        }
        let entry_metadata = match self.load_metadata(entry_source.as_str(), host) {
            Ok(m) => m,
            Err(e) => {
                return (Err(e), Ghost(Seq::empty()));
            },
        };
        let entry_dest = ensure_file(files, entry_source.as_str());
        let interpreter = match &entry_metadata.interpreter {
            Some(i) => i,
            None => {
                return (
                    Err(BuildStop::Failed(ClosureError::MissingInterpreter { path: entry_source })),
                    Ghost(Seq::empty()),
                );
            },
        };
        if interpreter.unicode_len() == 0 {
            return (
                Err(BuildStop::Failed(ClosureError::MissingInterpreter { path: entry_source })),
                Ghost(Seq::empty()),
            );
        }
        proof {
            assert(names_interpreter(*host, set![entry_source@], interpreter@)) by {
                assert(set![entry_source@].contains(entry_source@));
                assert(metadata_of(*host, entry_source@) matches Some(m) && m.interpreter == Some(
                    interpreter@,
                ));
            }
        }
        let interpreter_source = match self.canonicalize(interpreter.as_str(), host) {
            Ok(c) => c,
            Err(e) => {
                return (Err(e), Ghost(Seq::empty()));
            },
        };
        let ghost mid = files@;
        let interpreter_dest = ensure_file(files, interpreter_source.as_str());
        proof {
            lemma_sources_grow(files@, mid);
        }
        let mut lib_dirs: Vec<String> = Vec::new();
        lib_dirs.push(parent_of(entry_dest.as_str()));
        let mut order: Vec<String> = Vec::new();
        order.push(entry_source.clone());
        proof {
            lemma_canonical_in_image(*host, entry.path@);
            assert(views(order@) =~= seq![entry_source@]);
            assert(views(lib_dirs@) =~= seq![parent_dir(entry_dest@)]);
            assert(reaches(*self, *host, set![entry_source@], entry_source@, 0));
            assert(reachable(*self, *host, set![entry_source@], views(order@)[0]));
            assert forall|q: int| start.len() <= q < files@.len() implies views(order@).contains(
                #[trigger] files@[q].source@,
            ) || files@[q].source@ == interpreter_source@ by {
                if q < mid.len() {
                    assert(files@[q] == mid[q]);
                    assert(views(order@)[0] == entry_source@);
                }
            }
        }
        let ghost mut located: Seq<Seq<char>> = Seq::empty();
        proof {
            assert(located.map_values(|c: Seq<char>| parent_dir(payload_destination(c))) =~= Seq::<Seq<char>>::empty());
            assert(views(lib_dirs@) == add_new(seq![parent_dir(entry_dest@)], located.map_values(|c: Seq<char>| parent_dir(payload_destination(c)))));
            assert(seq![entry_source@, interpreter_source@] + located =~= seq![entry_source@].push(
                interpreter_source@,
            ));
            lemma_add_push(file_sources(start), seq![entry_source@], interpreter_source@);
            assert(views(order@) =~= walk(*self, *host, entry_source@, 0).order);
        }
        let mut i: usize = 0;
        while i < order.len()
            invariant
                files_wf(files@),
                extends(files@, start),
                start == old(files)@,
                !lacks_interpreter(*host, entry.path@),
                1 <= order@.len() <= host.canonical@.len(),
                i <= order@.len(),
                views(order@)[0] == entry_source@,
                views(order@).no_duplicates(),
                forall|x: Seq<char>| views(order@).contains(x) ==> canon_image(*host).contains(x),
                forall|x: Seq<char>| views(order@).contains(x) ==> file_sources(files@).contains(x),
                forall|k: int|
                    0 <= k < i ==> node_closed(*self, *host, #[trigger] views(order@)[k], views(order@).to_set()),
                file_sources(files@).contains(interpreter_source@),
                linker_of(*host, entry_source@) == Some(interpreter_source@),
                canonical_of(*host, entry.path@) == Some(Some(entry_source@)),
                forall|k: int|
                    0 <= k < views(order@).len() ==> reachable(
                        *self,
                        *host,
                        set![entry_source@],
                        #[trigger] views(order@)[k],
                    ),
                forall|q: int|
                    start.len() <= q < files@.len() ==> views(order@).contains(
                        #[trigger] files@[q].source@,
                    ) || files@[q].source@ == interpreter_source@,
                views(lib_dirs@).len() >= 1,
                views(lib_dirs@)[0] == parent_dir(entry_dest@),
                views(lib_dirs@).no_duplicates(),
                entry_dest@ == payload_destination(entry_source@),
                views(order@) == walk(*self, *host, entry_source@, i as nat).order,
                located == walk(*self, *host, entry_source@, i as nat).located,
                views(lib_dirs@) == add_new(
                    seq![parent_dir(entry_dest@)],
                    located.map_values(|c: Seq<char>| parent_dir(payload_destination(c))),
                ),
                file_sources(files@) == add_new(
                    file_sources(start),
                    seq![entry_source@, interpreter_source@] + located,
                ),
            decreases host.canonical@.len() - i,
        {
            let current = order[i].clone();
            let ghost w = walk(*self, *host, entry_source@, i as nat);
            proof {
                assert(reachable(*self, *host, set![entry_source@], views(order@)[i as int]));
                assert(root_of(*host, entry.path@) == set![entry_source@]);
            }
            let metadata = match self.load_metadata(current.as_str(), host) {
                Ok(m) => m,
                Err(e) => {
                    return (Err(e), Ghost(Seq::empty()));
                },
            };
            let search_paths = self.compute_search_paths(current.as_str(), metadata);
            let mut j: usize = 0;
            proof {
                assert(metadata@.needed.subrange(0, 0) =~= Seq::<Seq<char>>::empty());
                assert(located + dep_targets(*self, *host, current@, metadata@, metadata@.needed.subrange(0, 0)) =~= located);
            }
            while j < metadata.needed.len()
                invariant
                    files_wf(files@),
                    extends(files@, start),
                    start == old(files)@,
                    !lacks_interpreter(*host, entry.path@),
                    1 <= order@.len() <= host.canonical@.len(),
                    i < order@.len(),
                    views(order@)[i as int] == current@,
                    views(order@)[0] == entry_source@,
                    views(order@).no_duplicates(),
                    metadata_of(*host, current@) == Some(metadata@),
                    views(search_paths@) == self.search_paths(current@, metadata@),
                    forall|x: Seq<char>| views(order@).contains(x) ==> canon_image(*host).contains(x),
                    forall|x: Seq<char>| views(order@).contains(x) ==> file_sources(files@).contains(x),
                    forall|k: int|
                        0 <= k < i ==> node_closed(*self, *host, #[trigger] views(order@)[k], views(order@).to_set()),
                    forall|jj: int|
                        0 <= jj < j ==> dep_resolved(
                            *self,
                            *host,
                            current@,
                            metadata@,
                            #[trigger] metadata@.needed[jj],
                            views(order@).to_set(),
                        ),
                    j <= metadata.needed@.len(),
                    file_sources(files@).contains(interpreter_source@),
                    linker_of(*host, entry_source@) == Some(interpreter_source@),
                    canonical_of(*host, entry.path@) == Some(Some(entry_source@)),
                    forall|k: int|
                        0 <= k < views(order@).len() ==> reachable(
                            *self,
                            *host,
                            set![entry_source@],
                            #[trigger] views(order@)[k],
                        ),
                    forall|q: int|
                        start.len() <= q < files@.len() ==> views(order@).contains(
                            #[trigger] files@[q].source@,
                        ) || files@[q].source@ == interpreter_source@,
                    views(lib_dirs@).len() >= 1,
                    views(lib_dirs@)[0] == parent_dir(entry_dest@),
                    views(lib_dirs@).no_duplicates(),
                    entry_dest@ == payload_destination(entry_source@),
                    w == walk(*self, *host, entry_source@, i as nat),
                    i < w.order.len(),
                    w.order[i as int] == current@,
                    views(order@) == add_new(w.order, dep_targets(*self, *host, current@, metadata@, metadata@.needed.subrange(0, j as int))),
                    located == w.located + dep_targets(*self, *host, current@, metadata@, metadata@.needed.subrange(0, j as int)),
                    views(lib_dirs@) == add_new(
                        seq![parent_dir(entry_dest@)],
                        located.map_values(|c: Seq<char>| parent_dir(payload_destination(c))),
                    ),
                    file_sources(files@) == add_new(
                        file_sources(start),
                        seq![entry_source@, interpreter_source@] + located,
                    ),
                decreases metadata.needed@.len() - j,
            {
                let name = &metadata.needed[j];
                assert(metadata@.needed[j as int] == name@);
                assert(metadata@.needed.subrange(0, j + 1).drop_last() =~= metadata@.needed.subrange(
                    0,
                    j as int,
                ));
                let ghost old_located = located;
                proof {
                    assert(reachable(*self, *host, set![entry_source@], views(order@)[i as int]));
                    assert(root_of(*host, entry.path@) == set![entry_source@]);
                    lemma_first_existing_member(candidates(name@, views(search_paths@)), *host);
                }
                if !Self::should_skip(name.as_str()) {
                    let lib = match Self::locate_library(name.as_str(), &search_paths, host) {
                        Ok(Some(p)) => p,
                        Ok(None) => {
                            assert(metadata@.needed.contains(name@));
                            return (
                                Err(
                                    BuildStop::Failed(
                                        ClosureError::LibraryNotFound {
                                            name: name.clone(),
                                            needed_by: current,
                                        },
                                    ),
                                ),
                                Ghost(Seq::empty()),
                            );
                        },
                        Err(q) => {
                            proof {
                                assert(searched_from(*self, *host, current@, q->Exists_0@));
                                lemma_unknown_unrecorded(
                                    candidates(name@, views(search_paths@)),
                                    *host,
                                );
                            }
                            return (Err(BuildStop::NeedFact(q)), Ghost(Seq::empty()));
                        },
                    };
                    proof {
                        assert(searched_from(*self, *host, current@, lib@));
                    }
                    let canonical = match self.canonicalize(lib.as_str(), host) {
                        Ok(c) => c,
                        Err(e) => {
                            return (Err(e), Ghost(Seq::empty()));
                        },
                    };
                    proof {
                        lemma_canonical_in_image(*host, lib@);
                    }
                    let ghost before_files = files@;
                    let dest = ensure_file(files, canonical.as_str());
                    proof {
                        lemma_sources_grow(files@, before_files);
                    }
                    let ghost before_dirs = views(lib_dirs@);
                    push_unique(&mut lib_dirs, parent_of(dest.as_str()));
                    proof {
                        if !before_dirs.contains(parent_dir(dest@)) {
                            assert(views(lib_dirs@)[0] == before_dirs[0]);
                        }
                    }
                    let ghost before_order = views(order@);
                    if !contains_str(&order, canonical.as_str()) {
                        order.push(canonical);
                        proof {
                            assert(views(order@) =~= before_order.push(canonical@));
                            before_order.lemma_push_to_set_commute(canonical@);
                            assert(before_order.to_set().subset_of(views(order@).to_set()));
                            assert(views(order@)[before_order.len() as int] == canonical@);
                            assert forall|x: Seq<char>| views(order@).contains(x) implies canon_image(
                                *host,
                            ).contains(x) by {
                                if x != canonical@ {
                                    assert(before_order.contains(x));
                                }
                            }
                            assert forall|x: Seq<char>| views(order@).contains(x) implies file_sources(
                                files@,
                            ).contains(x) by {
                                if x != canonical@ {
                                    assert(before_order.contains(x));
                                }
                            }
                            lemma_order_bounded(*host, views(order@));
                            assert forall|k: int| 0 <= k < i implies node_closed(
                                *self,
                                *host,
                                #[trigger] views(order@)[k],
                                views(order@).to_set(),
                            ) by {
                                assert(views(order@)[k] == before_order[k]);
                                lemma_node_mono(
                                    *self,
                                    *host,
                                    before_order[k],
                                    before_order.to_set(),
                                    views(order@).to_set(),
                                );
                            }
                            assert forall|jj: int| 0 <= jj < j implies dep_resolved(
                                *self,
                                *host,
                                current@,
                                metadata@,
                                #[trigger] metadata@.needed[jj],
                                views(order@).to_set(),
                            ) by {
                                lemma_dep_mono(
                                    *self,
                                    *host,
                                    current@,
                                    metadata@,
                                    metadata@.needed[jj],
                                    before_order.to_set(),
                                    views(order@).to_set(),
                                );
                            }
                        }
                    }
                    assert(views(order@).contains(canonical@));
                    assert(views(order@).to_set().contains(canonical@));
                    assert(dep_resolved(*self, *host, current@, metadata@, name@, views(order@).to_set()));
                    proof {
                        let roots = set![entry_source@];
                        assert(dep_target(*self, *host, current@, metadata@, metadata@.needed[j as int])
                            == Some(canonical@));
                        assert(is_dep(*self, *host, current@, canonical@));
                        assert(reachable(*self, *host, roots, before_order[i as int]));
                        let d = choose|d: nat| reaches(*self, *host, roots, current@, d);
                        lemma_reaches_step(*self, *host, roots, current@, canonical@, d);
                        assert forall|k: int| 0 <= k < views(order@).len() implies reachable(
                            *self,
                            *host,
                            roots,
                            #[trigger] views(order@)[k],
                        ) by {
                            if k < before_order.len() {
                                assert(views(order@)[k] == before_order[k]);
                                assert(reachable(*self, *host, roots, before_order[k]));
                            } else {
                                assert(views(order@)[k] == canonical@);
                                assert(reaches(*self, *host, roots, canonical@, d + 1));
                            }
                        }
                        assert forall|q: int| start.len() <= q < files@.len() implies views(
                            order@,
                        ).contains(#[trigger] files@[q].source@) || files@[q].source@
                            == interpreter_source@ by {
                            if q < before_files.len() {
                                assert(files@[q] == before_files[q]);
                                if before_order.contains(files@[q].source@) {
                                    let w = choose|w: int|
                                        0 <= w < before_order.len() && before_order[w]
                                            == files@[q].source@;
                                    assert(views(order@)[w] == before_order[w]);
                                }
                            }
                        }
                    }
                    proof {
                        let dt = dep_targets(*self, *host, current@, metadata@, metadata@.needed.subrange(0, j as int));
                        let cv = canonical@;
                        let pd = parent_dir(payload_destination(cv));
                        located = located.push(cv);
                        assert(located == w.located + dt.push(cv));
                        lemma_add_push(w.order, dt, cv);
                        lemma_add_one(before_order, cv);
                        assert(located.map_values(|c: Seq<char>| parent_dir(payload_destination(c))) =~= old_located.map_values(|c: Seq<char>| parent_dir(payload_destination(c))).push(pd));
                        lemma_add_push(seq![parent_dir(entry_dest@)], old_located.map_values(|c: Seq<char>| parent_dir(payload_destination(c))), pd);
                        lemma_add_one(before_dirs, pd);
                        assert(seq![entry_source@, interpreter_source@] + located =~= (seq![
                            entry_source@,
                            interpreter_source@,
                        ] + old_located).push(cv));
                        lemma_add_push(file_sources(start), seq![entry_source@, interpreter_source@] + old_located, cv);
                    }
                }
                j += 1;
            }
            assert(node_closed(*self, *host, current@, views(order@).to_set()));
            proof {
                assert(metadata@.needed.subrange(0, metadata@.needed.len() as int) =~= metadata@.needed);
                assert(node_targets(*self, *host, current@) == dep_targets(*self, *host, current@, metadata@, metadata@.needed));
                assert(walk(*self, *host, entry_source@, (i + 1) as nat).order == views(order@));
            }
            i += 1;
        }
        proof {
            lemma_walk_len(*self, *host, entry_source@, i as nat);
            let ov = views(order@);
            assert forall|x: Seq<char>| ov.to_set().contains(x) implies node_closed(
                *self,
                *host,
                x,
                ov.to_set(),
            ) by {
                let k = choose|k: int| 0 <= k < ov.len() && ov[k] == x;
                assert(node_closed(*self, *host, ov[k], ov.to_set()));
            }
            lemma_destination_under_payload(entry_source@);
        }
        let plan = EntryBundlePlan {
            display_name: entry.display_name.clone(),
            binary_source: entry_source,
            binary_destination: entry_dest,
            linker_source: Some(interpreter_source),
            linker_destination: Some(interpreter_dest),
            library_dirs: lib_dirs,
            requires_linker: true,
        };
        (Ok(plan), Ghost(views(order@)))
    }
}

/// A closure of `spec` on the host: the files well formed, one plan per
/// entry in order, and a set of walked nodes that holds every entry's
/// binary, lies among the files and is closed under library resolution.
pub open spec fn closure_ok(
    b: ClosureBuilder,
    host: HostFacts,
    spec: BundleSpec,
    c: DependencyClosure,
) -> bool {
    &&& files_wf(c.files@)
    &&& file_sources(c.files@) == files_after(b, host, c.entry_plans@)
    &&& c.entry_plans@.len() == spec.entries@.len()
    &&& forall|i: int| 0 <= i < c.entry_plans@.len() ==> plan_of_entry(b, host, spec.entries@[i], #[trigger] c.entry_plans@[i], c.files@)
    &&& exists|n: Set<Seq<char>>|
        {
            &&& is_closed(b, host, n)
            &&& forall|x: Seq<char>| n.contains(x) ==> file_sources(c.files@).contains(x)
            &&& forall|i: int|
                0 <= i < c.entry_plans@.len() ==> n.contains(#[trigger] c.entry_plans@[i].binary_source@)
            &&& forall|x: Seq<char>|
                n.contains(x) ==> reachable(b, host, plan_binaries(c.entry_plans@), x)
            &&& forall|q: int|
                0 <= q < c.files@.len() ==> n.contains(#[trigger] c.files@[q].source@)
                    || plan_linkers(c.entry_plans@).contains(c.files@[q].source@)
        }
}

/// The paths of the entries.
pub open spec fn entry_paths(spec: BundleSpec) -> Set<Seq<char>> {
    Set::new(
        |p: Seq<char>| exists|i: int| 0 <= i < spec.entries@.len() && spec.entries@[i].path@ == p,
    )
}

/// The canonical forms of the entries' paths that the host facts record.
pub open spec fn entry_roots(host: HostFacts, spec: BundleSpec) -> Set<Seq<char>> {
    Set::new(
        |c: Seq<char>|
            exists|i: int|
                0 <= i < spec.entries@.len() && canonical_of(host, spec.entries@[i].path@) == Some(
                    Some(c),
                ),
    )
}

/// The binaries of the plans.
pub open spec fn plan_binaries(plans: Seq<EntryBundlePlan>) -> Set<Seq<char>> {
    Set::new(|x: Seq<char>| exists|j: int| 0 <= j < plans.len() && plans[j].binary_source@ == x)
}

/// The linkers of the plans.
pub open spec fn plan_linkers(plans: Seq<EntryBundlePlan>) -> Set<Seq<char>> {
    Set::new(
        |x: Seq<char>| exists|j: int| 0 <= j < plans.len() && plans[j].linker_source->0@ == x,
    )
}

/// `p` is the plan of `entry`, its binary and linker are among `files`,
/// and its library directories are those the walk from its binary meets.
pub open spec fn plan_of_entry(
    b: ClosureBuilder,
    host: HostFacts,
    entry: BundleEntry,
    p: EntryBundlePlan,
    files: Seq<ResolvedFile>,
) -> bool {
    &&& plan_wf(p)
    &&& p.requires_linker
    &&& p.display_name@ == entry.display_name@
    &&& canonical_of(host, entry.path@) == Some(Some(p.binary_source@))
    &&& file_sources(files).contains(p.binary_source@)
    &&& file_sources(files).contains(p.linker_source->0@)
    &&& linker_of(host, p.binary_source@) == Some(p.linker_source->0@)
    &&& views(p.library_dirs@) == library_dirs_spec(b, host, p.binary_source@)
}

/// The sources of a closure's files in the order they are first
/// registered: for each plan in turn, its binary, its linker, then the
/// libraries that the walk from the binary locates.
pub open spec fn files_after(b: ClosureBuilder, host: HostFacts, plans: Seq<EntryBundlePlan>) -> Seq<
    Seq<char>,
>
    decreases plans.len(),
{
    if plans.len() == 0 {
        Seq::empty()
    } else {
        let p = plans.last();
        add_new(
            files_after(b, host, plans.drop_last()),
            seq![p.binary_source@, p.linker_source->0@] + walk_located(b, host, p.binary_source@),
        )
    }
}

impl ClosureBuilder {
    /// The dependency closure of every entry of `spec`, as far as the
    /// recorded host facts reach; when one is missing, the query for it.
    ///
    /// An error holds of the host and concerns the walk (an entry, its
    /// interpreter, a node reached from the entries); a query asks for a
    /// fact that the walk needs and that is not recorded. So once every
    /// fact the walk needs is recorded and none of them fails, the result
    /// is a closure: closed under library resolution, holding nothing that
    /// is neither reached from an entry nor an entry's linker. Files come
    /// in the order they are first registered (`files_after`), and each
    /// plan's library directories in the order its walk meets them
    /// (`library_dirs_spec`), so two builds on the same facts are equal.
    pub fn build(&self, spec: &BundleSpec, host: &HostFacts) -> (r: Result<DependencyClosure, BuildStop>)
        ensures
            spec.entries@.len() == 0 ==> (r matches Ok(c) && c.files@.len() == 0
                && c.entry_plans@.len() == 0),
            match r {
                Ok(c) => closure_ok(*self, *host, *spec, c),
                Err(s) => stop_sound(*self, *host, s) && stop_relevant(
                    *self,
                    *host,
                    entry_paths(*spec),
                    entry_roots(*host, *spec),
                    s,
                ),
            },
            spec.entries@.len() > 0 && lacks_interpreter(*host, spec.entries@[0].path@)
                ==> reports_missing_interpreter(r, *host, spec.entries@[0].path@),
    {
        if spec.entries().len() == 0 {
            let c = DependencyClosure::default();
            proof {
                assert(is_closed(*self, *host, Set::<Seq<char>>::empty()));
                assert(c.files@.len() == 0);
                assert(file_sources(c.files@) =~= Seq::<Seq<char>>::empty());
            }
            return Ok(c);
        }
        let mut files: Vec<ResolvedFile> = Vec::new();
        let mut plans: Vec<EntryBundlePlan> = Vec::new();
        let ghost mut nodes: Set<Seq<char>> = Set::empty();
        let mut idx: usize = 0;
        assert(file_sources(files@) =~= Seq::<Seq<char>>::empty());
        while idx < spec.entries.len()
            invariant
                idx <= spec.entries@.len(),
                files_wf(files@),
                plans@.len() == idx,
                file_sources(files@) == files_after(*self, *host, plans@),
                forall|i: int| 0 <= i < idx ==> plan_of_entry(*self, *host, spec.entries@[i], #[trigger] plans@[i], files@),
                is_closed(*self, *host, nodes),
                forall|x: Seq<char>| nodes.contains(x) ==> file_sources(files@).contains(x),
                forall|i: int| 0 <= i < idx ==> nodes.contains(#[trigger] plans@[i].binary_source@),
                forall|x: Seq<char>| nodes.contains(x) ==> reachable(*self, *host, plan_binaries(plans@), x),
                forall|q: int|
                    0 <= q < files@.len() ==> nodes.contains(#[trigger] files@[q].source@)
                        || plan_linkers(plans@).contains(files@[q].source@),
                idx > 0 ==> !lacks_interpreter(*host, spec.entries@[0].path@),
            decreases spec.entries@.len() - idx,
        {
            let ghost before = files@;
            let (r, Ghost(walked)) = self.build_entry(&spec.entries[idx], &mut files, host);
            match r {
                Ok(plan) => {
                    proof {
                        lemma_sources_grow(files@, before);
                        lemma_closed_union(*self, *host, nodes, walked.to_set());
                        assert(walked.contains(walked[0]));
                        assert(walked.to_set().contains(walked[0]));
                    }
                    let ghost new_source = plan.binary_source@;
                    let ghost old_plans = plans@;
                    plans.push(plan);
                    let ghost old_nodes = nodes;
                    proof {
                        assert(plans@.drop_last() =~= old_plans);
                        nodes = nodes.union(walked.to_set());
                        assert forall|i: int| 0 <= i < idx + 1 implies plan_of_entry(
                            *self,
                            *host,
                            spec.entries@[i],
                            #[trigger] plans@[i],
                            files@,
                        ) by {
                            if i < idx {
                                assert(plans@[i] == old_plans[i]);
                            }
                        }
                        let nb = plan_binaries(plans@);
                        let ob = plan_binaries(old_plans);
                        assert(ob.subset_of(nb)) by {
                            assert forall|x: Seq<char>| ob.contains(x) implies nb.contains(x) by {
                                let j = choose|j: int|
                                    0 <= j < old_plans.len() && old_plans[j].binary_source@ == x;
                                assert(plans@[j] == old_plans[j]);
                            }
                        }
                        assert(set![new_source].subset_of(nb)) by {
                            assert(plans@[idx as int].binary_source@ == new_source);
                        }
                        assert forall|x: Seq<char>| nodes.contains(x) implies reachable(
                            *self,
                            *host,
                            nb,
                            x,
                        ) by {
                            if old_nodes.contains(x) {
                                let d = choose|d: nat| reaches(*self, *host, ob, x, d);
                                lemma_reaches_mono(*self, *host, ob, nb, x, d);
                            } else {
                                assert(walked.contains(x));
                                let d = choose|d: nat| reaches(*self, *host, set![new_source], x, d);
                                lemma_reaches_mono(*self, *host, set![new_source], nb, x, d);
                            }
                        }
                        let nl = plan_linkers(plans@);
                        assert forall|q: int| 0 <= q < files@.len() implies nodes.contains(
                            #[trigger] files@[q].source@,
                        ) || nl.contains(files@[q].source@) by {
                            if q < before.len() {
                                let src = before[q].source@;
                                assert(files@[q] == before[q]);
                                if !old_nodes.contains(src) {
                                    let j = choose|j: int|
                                        0 <= j < old_plans.len() && old_plans[j].linker_source->0@ == src;
                                    assert(plans@[j] == old_plans[j]);
                                }
                            } else if !walked.contains(files@[q].source@) {
                                assert(plans@[idx as int].linker_source->0@ == files@[q].source@);
                            }
                        }
                        assert forall|i: int| 0 <= i < idx + 1 implies nodes.contains(
                            #[trigger] plans@[i].binary_source@,
                        ) by {
                            if i < idx {
                                assert(plans@[i] == old_plans[i]);
                                assert(old_nodes.contains(old_plans[i].binary_source@));
                            } else {
                                assert(plans@[i].binary_source@ == new_source);
                                assert(walked.to_set().contains(new_source));
                            }
                        }
                    }
                },
                Err(e) => {
                    proof {
                        let path = spec.entries@[idx as int].path@;
                        assert(set![path].subset_of(entry_paths(*spec))) by {
                            assert(spec.entries@[idx as int].path@ == path);
                        }
                        assert(root_of(*host, path).subset_of(entry_roots(*host, *spec))) by {
                            assert forall|c: Seq<char>| root_of(*host, path).contains(c) implies entry_roots(
                                *host,
                                *spec,
                            ).contains(c) by {
                                assert(canonical_of(*host, spec.entries@[idx as int].path@) == Some(Some(c)));
                            }
                        }
                        lemma_relevant_mono(
                            *self,
                            *host,
                            set![path],
                            root_of(*host, path),
                            entry_paths(*spec),
                            entry_roots(*host, *spec),
                            e,
                        );
                    }
                    return Err(e);
                },
            }
            idx += 1;
        }
        let c = DependencyClosure { files, entry_plans: plans };
        assert(closure_ok(*self, *host, *spec, c));
        Ok(c)
    }
}

/// Each host file has exactly one destination in a closure, and the
/// destination is the same function of the source wherever it is looked
/// up.
pub proof fn lemma_one_destination_per_source(files: Seq<ResolvedFile>, i: int, j: int)
    requires
        files_wf(files),
        0 <= i < files.len(),
        0 <= j < files.len(),
        files[i].source@ == files[j].source@,
    ensures
        i == j,
        files[i].destination@ == payload_destination(files[i].source@),
{
    if i != j {
        assert(file_sources(files)[i] == file_sources(files)[j]);
    }
}

/// A library search returns the first candidate that exists: every
/// earlier candidate is known not to exist, so no later directory is
/// consulted once an earlier one holds the library.
pub proof fn lemma_search_takes_first_match(cands: Seq<Seq<char>>, host: HostFacts)
    requires
        first_existing(cands, host) is Found,
    ensures
        exists|i: int|
            0 <= i < cands.len() && cands[i] == first_existing(cands, host)->Found_0
                && exists_of(host, cands[i]) == Some(true) && forall|j: int|
                0 <= j < i ==> exists_of(host, #[trigger] cands[j]) == Some(false),
    decreases cands.len(),
{
    if exists_of(host, cands[0]) == Some(true) {
        assert(cands[0] == first_existing(cands, host)->Found_0);
    } else {
        let rest = cands.drop_first();
        lemma_search_takes_first_match(rest, host);
        let i = choose|i: int|
            0 <= i < rest.len() && rest[i] == first_existing(rest, host)->Found_0
                && exists_of(host, rest[i]) == Some(true) && forall|j: int|
                0 <= j < i ==> exists_of(host, #[trigger] rest[j]) == Some(false);
        assert(cands[i + 1] == rest[i]);
        assert forall|j: int| 0 <= j < i + 1 implies exists_of(host, #[trigger] cands[j]) == Some(
            false,
        ) by {
            if j > 0 {
                assert(cands[j] == rest[j - 1]);
            }
        }
    }
}

/// The layout of an entry plan: its binary lands under `payload/`, the
/// binary's directory is among the library directories, and a plan that
/// requires a linker has a linker destination.
pub proof fn lemma_plan_layout(p: EntryBundlePlan)
    requires
        plan_wf(p),
    ensures
        crate::path::has_payload_prefix(p.binary_destination@),
        views(p.library_dirs@).contains(parent_dir(p.binary_destination@)),
        p.requires_linker ==> p.linker_destination is Some,
{
    lemma_destination_under_payload(p.binary_source@);
    assert(views(p.library_dirs@)[0] == parent_dir(p.binary_destination@));
}

/// Two closures built for the same spec on the same host agree on every
/// entry's binary and its destination, and on the destination of every
/// file they share.
pub proof fn lemma_builds_agree(
    b: ClosureBuilder,
    host: HostFacts,
    spec: BundleSpec,
    c1: DependencyClosure,
    c2: DependencyClosure,
)
    requires
        closure_ok(b, host, spec, c1),
        closure_ok(b, host, spec, c2),
    ensures
        c1.entry_plans@.len() == c2.entry_plans@.len(),
        forall|i: int|
            0 <= i < c1.entry_plans@.len() ==> (#[trigger] c1.entry_plans@[i]).binary_source@
                == c2.entry_plans@[i].binary_source@ && c1.entry_plans@[i].binary_destination@
                == c2.entry_plans@[i].binary_destination@ && c1.entry_plans@[i].display_name@
                == c2.entry_plans@[i].display_name@,
        forall|i: int, j: int|
            0 <= i < c1.files@.len() && 0 <= j < c2.files@.len() && (#[trigger] c1.files@[i]).source@
                == (#[trigger] c2.files@[j]).source@ ==> c1.files@[i].destination@
                == c2.files@[j].destination@,
{
    assert forall|i: int| 0 <= i < c1.entry_plans@.len() implies (#[trigger] c1.entry_plans@[i]).binary_source@
        == c2.entry_plans@[i].binary_source@ && c1.entry_plans@[i].binary_destination@
        == c2.entry_plans@[i].binary_destination@ && c1.entry_plans@[i].display_name@
        == c2.entry_plans@[i].display_name@ by {
        assert(plan_of_entry(b, host, spec.entries@[i], c1.entry_plans@[i], c1.files@));
        assert(plan_of_entry(b, host, spec.entries@[i], c2.entry_plans@[i], c2.files@));
    }
}

proof fn lemma_files_after_agree(
    b: ClosureBuilder,
    host: HostFacts,
    p1: Seq<EntryBundlePlan>,
    p2: Seq<EntryBundlePlan>,
)
    requires
        p1.len() == p2.len(),
        forall|i: int|
            0 <= i < p1.len() ==> (#[trigger] p1[i]).binary_source@ == p2[i].binary_source@
                && p1[i].linker_source->0@ == p2[i].linker_source->0@,
    ensures
        files_after(b, host, p1) == files_after(b, host, p2),
    decreases p1.len(),
{
    if p1.len() > 0 {
        lemma_files_after_agree(b, host, p1.drop_last(), p2.drop_last());
        assert(p1.last() == p1[p1.len() - 1]);
    }
}

/// Building the same spec twice on the same host gives identical
/// closures: the same files in the same order with the same
/// destinations, and the same plans field by field.
pub proof fn lemma_builds_identical(
    b: ClosureBuilder,
    host: HostFacts,
    spec: BundleSpec,
    c1: DependencyClosure,
    c2: DependencyClosure,
)
    requires
        closure_ok(b, host, spec, c1),
        closure_ok(b, host, spec, c2),
    ensures
        c1.files@.len() == c2.files@.len(),
        forall|i: int|
            0 <= i < c1.files@.len() ==> (#[trigger] c1.files@[i]).source@ == c2.files@[i].source@
                && c1.files@[i].destination@ == c2.files@[i].destination@,
        c1.entry_plans@.len() == c2.entry_plans@.len(),
        forall|i: int|
            0 <= i < c1.entry_plans@.len() ==> {
                let (p, q) = (#[trigger] c1.entry_plans@[i], c2.entry_plans@[i]);
                &&& p.display_name@ == q.display_name@
                &&& p.binary_source@ == q.binary_source@
                &&& p.binary_destination@ == q.binary_destination@
                &&& opt_view(p.linker_source) == opt_view(q.linker_source)
                &&& opt_view(p.linker_destination) == opt_view(q.linker_destination)
                &&& views(p.library_dirs@) == views(q.library_dirs@)
                &&& p.requires_linker == q.requires_linker
            },
{
    let (p1, p2) = (c1.entry_plans@, c2.entry_plans@);
    assert forall|i: int| 0 <= i < p1.len() implies (#[trigger] p1[i]).binary_source@
        == p2[i].binary_source@ && p1[i].linker_source->0@ == p2[i].linker_source->0@ by {
        assert(plan_of_entry(b, host, spec.entries@[i], p1[i], c1.files@));
        assert(plan_of_entry(b, host, spec.entries@[i], p2[i], c2.files@));
    }
    lemma_files_after_agree(b, host, p1, p2);
    assert forall|i: int| 0 <= i < c1.files@.len() implies (#[trigger] c1.files@[i]).source@
        == c2.files@[i].source@ && c1.files@[i].destination@ == c2.files@[i].destination@ by {
        assert(file_sources(c1.files@)[i] == file_sources(c2.files@)[i]);
    }
    assert forall|i: int| 0 <= i < c1.entry_plans@.len() implies {
        let (p, q) = (#[trigger] c1.entry_plans@[i], c2.entry_plans@[i]);
        &&& p.display_name@ == q.display_name@
        &&& p.binary_source@ == q.binary_source@
        &&& p.binary_destination@ == q.binary_destination@
        &&& opt_view(p.linker_source) == opt_view(q.linker_source)
        &&& opt_view(p.linker_destination) == opt_view(q.linker_destination)
        &&& views(p.library_dirs@) == views(q.library_dirs@)
        &&& p.requires_linker == q.requires_linker
    } by {
        assert(plan_of_entry(b, host, spec.entries@[i], p1[i], c1.files@));
        assert(plan_of_entry(b, host, spec.entries@[i], p2[i], c2.files@));
    }
}

/// Building the same spec twice on the same host gives the same set of
/// files with the same destinations: the walked nodes of a closure are
/// exactly those reached from the entries, and every other file is an
/// entry's linker.
pub proof fn lemma_same_spec_same_closure(
    b: ClosureBuilder,
    host: HostFacts,
    spec: BundleSpec,
    c1: DependencyClosure,
    c2: DependencyClosure,
)
    requires
        closure_ok(b, host, spec, c1),
        closure_ok(b, host, spec, c2),
    ensures
        file_sources(c1.files@).to_set() == file_sources(c2.files@).to_set(),
        forall|i: int, j: int|
            0 <= i < c1.files@.len() && 0 <= j < c2.files@.len() && (#[trigger] c1.files@[i]).source@
                == (#[trigger] c2.files@[j]).source@ ==> c1.files@[i].destination@
                == c2.files@[j].destination@,
{
    lemma_builds_agree(b, host, spec, c1, c2);
    lemma_sources_within(b, host, spec, c1, c2);
    lemma_sources_within(b, host, spec, c2, c1);
    assert(file_sources(c1.files@).to_set() =~= file_sources(c2.files@).to_set());
}

proof fn lemma_sources_within(
    b: ClosureBuilder,
    host: HostFacts,
    spec: BundleSpec,
    c1: DependencyClosure,
    c2: DependencyClosure,
)
    requires
        closure_ok(b, host, spec, c1),
        closure_ok(b, host, spec, c2),
    ensures
        forall|x: Seq<char>|
            file_sources(c1.files@).to_set().contains(x) ==> file_sources(c2.files@).to_set().contains(
                x,
            ),
{
    lemma_builds_agree(b, host, spec, c1, c2);
    let plans_a = c1.entry_plans@;
    let plans_b = c2.entry_plans@;
    let n1 = choose|n: Set<Seq<char>>|
        {
            &&& is_closed(b, host, n)
            &&& forall|x: Seq<char>| n.contains(x) ==> file_sources(c1.files@).contains(x)
            &&& forall|i: int| 0 <= i < plans_a.len() ==> n.contains(#[trigger] plans_a[i].binary_source@)
            &&& forall|x: Seq<char>| n.contains(x) ==> reachable(b, host, plan_binaries(plans_a), x)
            &&& forall|q: int|
                0 <= q < c1.files@.len() ==> n.contains(#[trigger] c1.files@[q].source@)
                    || plan_linkers(plans_a).contains(c1.files@[q].source@)
        };
    let n2 = choose|n: Set<Seq<char>>|
        {
            &&& is_closed(b, host, n)
            &&& forall|x: Seq<char>| n.contains(x) ==> file_sources(c2.files@).contains(x)
            &&& forall|i: int| 0 <= i < plans_b.len() ==> n.contains(#[trigger] plans_b[i].binary_source@)
            &&& forall|x: Seq<char>| n.contains(x) ==> reachable(b, host, plan_binaries(plans_b), x)
            &&& forall|q: int|
                0 <= q < c2.files@.len() ==> n.contains(#[trigger] c2.files@[q].source@)
                    || plan_linkers(plans_b).contains(c2.files@[q].source@)
        };
    assert(plan_binaries(plans_a).subset_of(n2)) by {
        assert forall|x: Seq<char>| plan_binaries(plans_a).contains(x) implies n2.contains(x) by {
            let j = choose|j: int| 0 <= j < plans_a.len() && plans_a[j].binary_source@ == x;
            assert(plans_b[j].binary_source@ == x);
        }
    }
    assert forall|x: Seq<char>| file_sources(c1.files@).to_set().contains(x) implies file_sources(
        c2.files@,
    ).to_set().contains(x) by {
        let q = choose|q: int| 0 <= q < file_sources(c1.files@).len() && file_sources(c1.files@)[q] == x;
        assert(c1.files@[q].source@ == x);
        if n1.contains(x) {
            let d = choose|d: nat| reaches(b, host, plan_binaries(plans_a), x, d);
            lemma_closed_holds_reached(b, host, plan_binaries(plans_a), n2, x, d);
        } else {
            let j = choose|j: int| 0 <= j < plans_a.len() && plans_a[j].linker_source->0@ == x;
            assert(plan_of_entry(b, host, spec.entries@[j], plans_a[j], c1.files@));
            assert(plan_of_entry(b, host, spec.entries@[j], plans_b[j], c2.files@));
            assert(plans_b[j].linker_source->0@ == x);
        }
    }
}

/// A library name that the kernel or the interpreter provides is never
/// searched for: no candidate path comes from it, so no existence query
/// of a build (each one `searched`, by `build`'s contract) is about it.
pub proof fn lemma_skipped_names_not_searched(
    b: ClosureBuilder,
    host: HostFacts,
    x: Seq<char>,
    p: Seq<char>,
)
    requires
        metadata_of(host, x) matches Some(m) && forall|k: int|
            0 <= k < m.needed.len() ==> should_skip_spec(#[trigger] m.needed[k]),
    ensures
        !searched_from(b, host, x, p),
{
}

/// Names that the kernel or the interpreter provides locate nothing, so
/// they add neither a file nor a library directory to a plan.
pub proof fn lemma_skipped_names_locate_nothing(
    b: ClosureBuilder,
    host: HostFacts,
    node: Seq<char>,
    m: ElfMetadataView,
    names: Seq<Seq<char>>,
)
    requires
        forall|k: int| 0 <= k < names.len() ==> should_skip_spec(#[trigger] names[k]),
    ensures
        dep_targets(b, host, node, m, names) == Seq::<Seq<char>>::empty(),
    decreases names.len(),
{
    if names.len() > 0 {
        lemma_skipped_names_locate_nothing(b, host, node, m, names.drop_last());
        assert(should_skip_spec(names[names.len() - 1]));
    }
}

/// Files with absolute sources have pairwise distinct destinations.
pub proof fn lemma_destinations_distinct(files: Seq<ResolvedFile>, i: int, j: int)
    requires
        files_wf(files),
        0 <= i < files.len(),
        0 <= j < files.len(),
        i != j,
        is_absolute(files[i].source@),
        is_absolute(files[j].source@),
    ensures
        files[i].destination@ != files[j].destination@,
{
    assert(file_sources(files)[i] != file_sources(files)[j]);
    let (a, c) = (files[i].source@, files[j].source@);
    if files[i].destination@ == files[j].destination@ {
        assert(payload_root() + a == payload_root() + c);
        assert(a =~= (payload_root() + a).subrange(7, (payload_root() + a).len() as int));
        assert(c =~= (payload_root() + c).subrange(7, (payload_root() + c).len() as int));
    }
}

} // verus!
