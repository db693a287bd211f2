//! The bundle's data model: what is asked for (entries of a spec) and
//! what the closure builder hands on (files and per-entry plans).
use vstd::prelude::*;
use crate::text::views;

verus! {

/// Processor architecture of a bundle; only x86_64 is defined.
#[derive(Debug, Clone, Copy, PartialEq, Eq, Structural)]
pub enum TargetArch {
    X86_64,
}

/// Operating system of a bundle; only Linux is defined.
#[derive(Debug, Clone, Copy, PartialEq, Eq, Structural)]
pub enum TargetOs {
    Linux,
}

#[derive(Debug, Clone, Copy, PartialEq, Eq, Structural)]
pub struct TargetTriple {
    pub arch: TargetArch,
    pub os: TargetOs,
}

impl TargetTriple {
    pub fn linux_x86_64() -> (r: Self)
        ensures
            r.arch == TargetArch::X86_64,
            r.os == TargetOs::Linux,
    {
        TargetTriple { arch: TargetArch::X86_64, os: TargetOs::Linux }
    }
}

/// One executable to bundle: its host path and the name it is launched
/// under.
#[derive(Debug)]
pub struct BundleEntry {
    pub path: String,
    pub display_name: String,
}

impl BundleEntry {
    pub fn new(path: &str, display_name: &str) -> (r: Self)
        ensures
            r.path@ == path@,
            r.display_name@ == display_name@,
    {
        BundleEntry { path: path.to_owned(), display_name: display_name.to_owned() }
    }
}

/// A bundle request: its name, target and ordered entries.
#[derive(Debug)]
pub struct BundleSpec {
    pub name: String,
    pub target: TargetTriple,
    pub entries: Vec<BundleEntry>,
}

impl BundleSpec {
    pub fn new(name: &str, target: TargetTriple) -> (r: Self)
        ensures
            r.name@ == name@,
            r.target == target,
            r.entries@.len() == 0,
    {
        BundleSpec { name: name.to_owned(), target, entries: Vec::new() }
    }

    pub fn with_entry(self, entry: BundleEntry) -> (r: Self)
        ensures
            r.name == self.name,
            r.target == self.target,
            r.entries@ == self.entries@.push(entry),
    {
        let mut s = self;
        s.entries.push(entry);
        s
    }

    pub fn entries(&self) -> (r: &[BundleEntry])
        ensures
            r@ == self.entries@,
    {
        self.entries.as_slice()
    }
}

/// A host file and where it goes in the bundle.
#[derive(Debug)]
pub struct ResolvedFile {
    pub source: String,
    pub destination: String,
}

impl ResolvedFile {
    pub fn new(source: &str, destination: &str) -> (r: Self)
        ensures
            r.source@ == source@,
            r.destination@ == destination@,
    {
        ResolvedFile { source: source.to_owned(), destination: destination.to_owned() }
    }
}

/// How one entry is laid out in the bundle: the binary, the dynamic
/// linker that runs it, and the library directories, in the order in
/// which they were found.
#[derive(Debug)]
pub struct EntryBundlePlan {
    pub display_name: String,
    pub binary_source: String,
    pub binary_destination: String,
    pub linker_source: Option<String>,
    pub linker_destination: Option<String>,
    pub library_dirs: Vec<String>,
    pub requires_linker: bool,
}

/// The files of a bundle, with one plan per entry.
#[derive(Debug)]
pub struct DependencyClosure {
    pub files: Vec<ResolvedFile>,
    pub entry_plans: Vec<EntryBundlePlan>,
}

impl Default for DependencyClosure {
    fn default() -> (r: Self)
        ensures
            r.files@.len() == 0,
            r.entry_plans@.len() == 0,
    {
        DependencyClosure { files: Vec::new(), entry_plans: Vec::new() }
    }
}

impl DependencyClosure {
    pub fn add_file(self, file: ResolvedFile) -> (r: Self)
        ensures
            r.files@ == self.files@.push(file),
            r.entry_plans@ == self.entry_plans@,
    {
        let mut c = self;
        c.files.push(file);
        c
    }

    /// The sources of the files, in order.
    pub open spec fn sources(&self) -> Seq<Seq<char>> {
        self.files@.map_values(|f: ResolvedFile| f.source@)
    }
}

/// Copies a list of strings, keeping what each one holds.
pub fn copy_strings(v: &Vec<String>) -> (r: Vec<String>)
    ensures
        views(r@) == views(v@),
{
    let mut out: Vec<String> = Vec::new();
    let mut i: usize = 0;
    while i < v.len()
        invariant
            i <= v@.len(),
            views(out@) == views(v@.subrange(0, i as int)),
        decreases v@.len() - i,
    {
        let ghost before = views(out@);
        let c = v[i].clone();
        out.push(c);
        assert(views(out@) =~= before.push(c@));
        assert(views(v@.subrange(0, i + 1)) =~= views(v@.subrange(0, i as int)).push(v@[i as int]@));
        i += 1;
    }
    assert(v@.subrange(0, v@.len() as int) =~= v@);
    out
}

/// Copies an optional string, keeping what it holds.
pub fn copy_opt(o: &Option<String>) -> (r: Option<String>)
    ensures
        opt_view(r) == opt_view(*o),
{
    match o {
        Some(s) => Some(s.clone()),
        None => None,
    }
}

pub open spec fn opt_view(o: Option<String>) -> Option<Seq<char>> {
    match o {
        Some(s) => Some(s@),
        None => None,
    }
}

} // verus!
