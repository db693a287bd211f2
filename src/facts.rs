//! What the closure builder knows of the host file system: canonical
//! forms of paths, which paths exist, and the ELF metadata of files.
//! The builder never reads the host itself; it asks for the fact it
//! lacks, and the caller records the answer and asks again.
use vstd::prelude::*;
use crate::elf::{ElfMetadata, ElfMetadataView, ElfParseError};
use crate::text::text_eq;

verus! {

/// The value recorded last for key `k`.
pub open spec fn lookup<V>(s: Seq<(String, V)>, k: Seq<char>) -> Option<V>
    decreases s.len(),
{
    if s.len() == 0 {
        None
    } else if s.last().0@ == k {
        Some(s.last().1)
    } else {
        lookup(s.drop_last(), k)
    }
}

/// A fact that the builder needs and does not have.
#[derive(Debug)]
pub enum HostQuery {
    /// The canonical form of a path (`fs::canonicalize`).
    Canonicalize(String),
    /// Whether a path exists.
    Exists(String),
    /// The ELF metadata of the file at a path.
    ReadElf(String),
}

pub struct HostFacts {
    pub canonical: Vec<(String, Result<String, String>)>,
    pub existing: Vec<(String, bool)>,
    pub elf: Vec<(String, Result<ElfMetadata, ElfParseError>)>,
}

/// The canonical form of `p`: unknown (`None`), failed (`Some(None)`) or
/// known.
pub open spec fn canonical_of(host: HostFacts, p: Seq<char>) -> Option<Option<Seq<char>>> {
    match lookup(host.canonical@, p) {
        None => None,
        Some(Ok(c)) => Some(Some(c@)),
        Some(Err(_)) => Some(None),
    }
}

pub open spec fn exists_of(host: HostFacts, p: Seq<char>) -> Option<bool> {
    lookup(host.existing@, p)
}

/// The metadata of `p` when it is known and was read without error.
pub open spec fn metadata_of(host: HostFacts, p: Seq<char>) -> Option<ElfMetadataView> {
    match lookup(host.elf@, p) {
        Some(Ok(m)) => Some(m@),
        _ => None,
    }
}

/// Whether the host answer that `q` asks for is already recorded.
pub open spec fn is_known(host: HostFacts, q: HostQuery) -> bool {
    match q {
        HostQuery::Canonicalize(p) => lookup(host.canonical@, p@) is Some,
        HostQuery::Exists(p) => lookup(host.existing@, p@) is Some,
        HostQuery::ReadElf(p) => lookup(host.elf@, p@) is Some,
    }
}

/// Index of the entry that `lookup` returns.
pub fn find_fact<V>(s: &Vec<(String, V)>, k: &str) -> (r: Option<usize>)
    ensures
        match r {
            Some(i) => i < s@.len() && s@[i as int].0@ == k@ && lookup(s@, k@) == Some(
                s@[i as int].1,
            ),
            None => lookup(s@, k@) is None,
        },
{
    let mut j: usize = s.len();
    assert(s@.subrange(0, j as int) =~= s@);
    while j > 0
        invariant
            j <= s@.len(),
            lookup(s@, k@) == lookup(s@.subrange(0, j as int), k@),
        decreases j,
    {
        let ghost pre = s@.subrange(0, j as int);
        assert(pre.drop_last() =~= s@.subrange(0, j - 1));
        if text_eq(s[j - 1].0.as_str(), k) {
            return Some(j - 1);
        }
        j -= 1;
    }
    None
}

impl HostFacts {
    pub fn new() -> (r: Self)
        ensures
            r.canonical@.len() == 0,
            r.existing@.len() == 0,
            r.elf@.len() == 0,
    {
        HostFacts { canonical: Vec::new(), existing: Vec::new(), elf: Vec::new() }
    }

    /// Records the canonical form of `path`, or the message of the error
    /// that canonicalizing it gave.
    pub fn record_canonical(&mut self, path: &str, result: Result<String, String>)
        ensures
            lookup(final(self).canonical@, path@) == Some(result),
            forall|p: Seq<char>|
                p != path@ ==> lookup(final(self).canonical@, p) == lookup(old(self).canonical@, p),
            final(self).existing@ == old(self).existing@,
            final(self).elf@ == old(self).elf@,
    {
        let ghost before = self.canonical@;
        self.canonical.push((path.to_owned(), result));
        assert(self.canonical@.drop_last() =~= before);
    }

    /// Records whether `path` exists.
    pub fn record_exists(&mut self, path: &str, exists: bool)
        ensures
            lookup(final(self).existing@, path@) == Some(exists),
            forall|p: Seq<char>|
                p != path@ ==> lookup(final(self).existing@, p) == lookup(old(self).existing@, p),
            final(self).canonical@ == old(self).canonical@,
            final(self).elf@ == old(self).elf@,
    {
        let ghost before = self.existing@;
        self.existing.push((path.to_owned(), exists));
        assert(self.existing@.drop_last() =~= before);
    }

    /// Records the metadata read from the file at `path`, or the error that
    /// reading it gave.
    pub fn record_elf(&mut self, path: &str, result: Result<ElfMetadata, ElfParseError>)
        ensures
            lookup(final(self).elf@, path@) == Some(result),
            forall|p: Seq<char>|
                p != path@ ==> lookup(final(self).elf@, p) == lookup(old(self).elf@, p),
            final(self).canonical@ == old(self).canonical@,
            final(self).existing@ == old(self).existing@,
    {
        let ghost before = self.elf@;
        self.elf.push((path.to_owned(), result));
        assert(self.elf@.drop_last() =~= before);
    }
}

} // verus!
