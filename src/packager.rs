//! Bundle output: the refusal of an empty closure, the self-extracting
//! shim's framing, and the choices made while archiving the bundle tree.
use vstd::prelude::*;
use vstd::string::*;
use crate::model::{BundleSpec, DependencyClosure};
use crate::text::{concat, has_prefix, starts_with, text_eq};

verus! {

#[derive(Debug)]
pub enum PackagerError {
    EmptyClosure(String),
    Manifest(String),
    Shim(String),
    Io { path: String, message: String },
}

impl PackagerError {
    /// The human-readable message of the error.
    pub fn message(&self) -> (r: String)
        ensures
            match self {
                PackagerError::EmptyClosure(name) => r@ == "bundle `"@ + name@
                    + "` has no files to package"@,
                PackagerError::Manifest(m) => r@ == "manifest error: "@ + m@,
                PackagerError::Shim(m) => r@ == "shim error: "@ + m@,
                PackagerError::Io { path, message } => r@ == "failed to write "@ + path@ + ": "@
                    + message@,
            },
    {
        match self {
            PackagerError::EmptyClosure(name) => {
                let a = concat("bundle `", name.as_str());
                concat(a.as_str(), "` has no files to package")
            },
            PackagerError::Manifest(m) => concat("manifest error: ", m.as_str()),
            PackagerError::Shim(m) => concat("shim error: ", m.as_str()),
            PackagerError::Io { path, message } => {
                let a = concat("failed to write ", path.as_str());
                let b = concat(a.as_str(), ": ");
                concat(b.as_str(), message.as_str())
            },
        }
    }
}

/// Writes a closure out as a bundle.
#[derive(Debug, Clone, Copy)]
pub struct Packager {}

impl Packager {
    pub fn new() -> (r: Self) {
        Packager {  }
    }

    /// Refuses a closure without files, naming the bundle.
    pub fn emit(&self, spec: &BundleSpec, closure: &DependencyClosure) -> (r: Result<(), PackagerError>)
        ensures
            closure.files@.len() == 0 <==> r is Err,
            r matches Err(e) ==> e matches PackagerError::EmptyClosure(n) && n@ == spec.name@,
    {
        if closure.files.len() == 0 {
            return Err(PackagerError::EmptyClosure(spec.name.clone()));
        }
        Ok(())
    }
}

/// The eight little-endian bytes of `v`.
pub open spec fn le_bytes_spec(v: u64) -> Seq<u8> {
    Seq::new(8, |i: int| ((v >> (8 * i) as u64) & 0xff) as u8)
}

pub fn le_bytes(v: u64) -> (r: Vec<u8>)
    ensures
        r@ == le_bytes_spec(v),
{
    let mut out: Vec<u8> = Vec::new();
    let mut i: u64 = 0;
    while i < 8
        invariant
            i <= 8,
            out@.len() == i,
            forall|j: int| 0 <= j < i ==> out@[j] == ((v >> (8 * j) as u64) & 0xff) as u8,
        decreases 8 - i,
    {
        out.push(((v >> (8 * i)) & 0xff) as u8);
        i += 1;
    }
    assert(out@ =~= le_bytes_spec(v));
    out
}

/// The trailer of a shim: the archive length, then the metadata length.
pub open spec fn trailer_spec(archive_len: u64, metadata_len: u64) -> Seq<u8> {
    le_bytes_spec(archive_len) + le_bytes_spec(metadata_len)
}

/// A shim: the stub, the archive, the metadata, and the trailer that
/// gives their lengths.
pub open spec fn shim_spec(stub: Seq<u8>, archive: Seq<u8>, metadata: Seq<u8>) -> Seq<u8> {
    stub + archive + metadata + trailer_spec(archive.len() as u64, metadata.len() as u64)
}

fn append_bytes(dst: &mut Vec<u8>, src: &[u8])
    requires
        old(dst)@.len() + src@.len() <= usize::MAX,
    ensures
        final(dst)@ == old(dst)@ + src@,
{
    let mut i: usize = 0;
    while i < src.len()
        invariant
            i <= src@.len(),
            dst@ == old(dst)@ + src@.subrange(0, i as int),
        decreases src@.len() - i,
    {
        dst.push(src[i]);
        assert(src@.subrange(0, i + 1) =~= src@.subrange(0, i as int).push(src@[i as int]));
        i += 1;
    }
    assert(src@.subrange(0, src@.len() as int) =~= src@);
}

pub fn frame_shim(stub: &[u8], archive: &[u8], metadata: &[u8]) -> (r: Vec<u8>)
    requires
        stub@.len() + archive@.len() + metadata@.len() + 16 <= usize::MAX,
    ensures
        r@ == shim_spec(stub@, archive@, metadata@),
{
    let mut out: Vec<u8> = Vec::new();
    append_bytes(&mut out, stub);
    append_bytes(&mut out, archive);
    append_bytes(&mut out, metadata);
    let a = le_bytes(archive.len() as u64);
    let m = le_bytes(metadata.len() as u64);
    append_bytes(&mut out, a.as_slice());
    append_bytes(&mut out, m.as_slice());
    assert(out@ =~= shim_spec(stub@, archive@, metadata@));
    out
}

/// The SHA-256 digest of a byte string.
pub uninterp spec fn sha256_of(data: Seq<u8>) -> Seq<u8>;

/// Relies on `sha2::Sha256::digest`: the 32-byte digest of `data`, a
/// function of the bytes alone.
#[verifier::external_body]
fn sha256_digest(data: &[u8]) -> (r: Vec<u8>)
    ensures
        r@ == sha256_of(data@),
        r@.len() == 32,
{
    <sha2::Sha256 as sha2::Digest>::digest(data).to_vec()
}

pub open spec fn hex_digits() -> Seq<char> {
    seq!['0', '1', '2', '3', '4', '5', '6', '7', '8', '9', 'a', 'b', 'c', 'd', 'e', 'f']
}

/// Two lower-case hexadecimal digits per byte.
pub open spec fn hex_spec(bytes: Seq<u8>) -> Seq<char>
    decreases bytes.len(),
{
    if bytes.len() == 0 {
        Seq::empty()
    } else {
        hex_spec(bytes.drop_last()) + seq![
            hex_digits()[(bytes.last() / 16) as int],
            hex_digits()[(bytes.last() % 16) as int],
        ]
    }
}

pub fn hex_lower(bytes: &[u8]) -> (r: String)
    ensures
        r@ == hex_spec(bytes@),
{
    let digits = "0123456789abcdef";
    proof {
        reveal_strlit("0123456789abcdef");
    }
    assert(digits@ =~= hex_digits());
    let mut out = String::new();
    let mut i: usize = 0;
    while i < bytes.len()
        invariant
            i <= bytes@.len(),
            digits@ == hex_digits(),
            out@ == hex_spec(bytes@.subrange(0, i as int)),
        decreases bytes@.len() - i,
    {
        let b = bytes[i];
        let hi = (b / 16) as usize;
        let lo = (b % 16) as usize;
        let ghost before = out@;
        out.append(digits.substring_char(hi, hi + 1));
        out.append(digits.substring_char(lo, lo + 1));
        assert(bytes@.subrange(0, i + 1).drop_last() =~= bytes@.subrange(0, i as int));
        assert(out@ =~= before + seq![hex_digits()[hi as int], hex_digits()[lo as int]]);
        i += 1;
    }
    assert(bytes@.subrange(0, bytes@.len() as int) =~= bytes@);
    out
}

/// The lower-case hexadecimal SHA-256 digest of `data`.
pub fn sha256_hex(data: &[u8]) -> (r: String)
    ensures
        r@ == hex_spec(sha256_of(data@)),
        r@.len() == 64,
{
    let digest = sha256_digest(data);
    proof {
        lemma_hex_len(digest@);
    }
    hex_lower(digest.as_slice())
}

proof fn lemma_hex_len(bytes: Seq<u8>)
    ensures
        hex_spec(bytes).len() == 2 * bytes.len(),
    decreases bytes.len(),
{
    if bytes.len() > 0 {
        lemma_hex_len(bytes.drop_last());
    }
}

/// What a shim's metadata records.
#[derive(Debug)]
pub struct ShimMetadata {
    pub bundle_name: String,
    pub entry_name: String,
    pub default_extract_path: String,
    pub archive_sha256: String,
}

impl ShimMetadata {
    /// The metadata of one entry's shim; it extracts by default under
    /// `~/.cache/sidebundle/<bundle>`.
    pub fn new(bundle_name: &str, entry_name: &str, archive_sha256: &str) -> (r: Self)
        ensures
            r.bundle_name@ == bundle_name@,
            r.entry_name@ == entry_name@,
            r.default_extract_path@ == "~/.cache/sidebundle/"@ + bundle_name@,
            r.archive_sha256@ == archive_sha256@,
    {
        ShimMetadata {
            bundle_name: bundle_name.to_owned(),
            entry_name: entry_name.to_owned(),
            default_extract_path: concat("~/.cache/sidebundle/", bundle_name),
            archive_sha256: archive_sha256.to_owned(),
        }
    }
}

/// Whether a path of the bundle tree, relative to its root, stays out of
/// the archive: the root itself and the `shims` directory with all it
/// holds.
pub fn skip_in_archive(rel: &str) -> (r: bool)
    ensures
        r == (rel@.len() == 0 || rel@ == "shims"@ || has_prefix(rel@, "shims/"@)),
{
    rel.unicode_len() == 0 || text_eq(rel, "shims") || starts_with(rel, "shims/")
}

/// The first archived path of each file, by device and inode, so that
/// later names of the same file become hard links to it.
#[derive(Debug)]
pub struct HardlinkIndex {
    pub seen: Vec<((u64, u64), String)>,
}

/// The path first recorded for `key`.
pub open spec fn first_path(s: Seq<((u64, u64), String)>, key: (u64, u64)) -> Option<Seq<char>>
    decreases s.len(),
{
    if s.len() == 0 {
        None
    } else if s[0].0 == key {
        Some(s[0].1@)
    } else {
        first_path(s.drop_first(), key)
    }
}

proof fn lemma_first_path_push(s: Seq<((u64, u64), String)>, e: ((u64, u64), String), key: (u64, u64))
    ensures
        first_path(s.push(e), key) == match first_path(s, key) {
            Some(p) => Some(p),
            None => if e.0 == key {
                Some(e.1@)
            } else {
                None
            },
        },
    decreases s.len(),
{
    if s.len() > 0 {
        assert(s.push(e).drop_first() =~= s.drop_first().push(e));
        assert(s.push(e)[0] == s[0]);
        lemma_first_path_push(s.drop_first(), e, key);
    } else {
        assert(s.push(e).drop_first() =~= Seq::<((u64, u64), String)>::empty());
        assert(s.push(e)[0] == e);
        assert(first_path(s.push(e).drop_first(), key) is None);
    }
}

impl HardlinkIndex {
    pub fn new() -> (r: Self)
        ensures
            r.seen@.len() == 0,
    {
        HardlinkIndex { seen: Vec::new() }
    }

    /// The path recorded first for the file `key`; when there is none,
    /// `rel` is recorded for it.
    pub fn link_target(&mut self, key: (u64, u64), rel: &str) -> (r: Option<String>)
        ensures
            match first_path(old(self).seen@, key) {
                Some(p) => r matches Some(x) && x@ == p && final(self).seen@ == old(self).seen@,
                None => r is None && first_path(final(self).seen@, key) == Some(rel@),
            },
            forall|k: (u64, u64)|
                k != key ==> first_path(final(self).seen@, k) == first_path(old(self).seen@, k),
    {
        let mut i: usize = 0;
        assert(self.seen@.subrange(0, self.seen@.len() as int) =~= self.seen@);
        while i < self.seen.len()
            invariant
                i <= self.seen@.len(),
                self.seen@ == old(self).seen@,
                first_path(self.seen@, key) == first_path(
                    self.seen@.subrange(i as int, self.seen@.len() as int),
                    key,
                ),
            decreases self.seen@.len() - i,
        {
            let ghost rest = self.seen@.subrange(i as int, self.seen@.len() as int);
            assert(rest.drop_first() =~= self.seen@.subrange(i + 1, self.seen@.len() as int));
            if self.seen[i].0.0 == key.0 && self.seen[i].0.1 == key.1 {
                return Some(self.seen[i].1.clone());
            }
            i += 1;
        }
        let ghost before = self.seen@;
        let e = (key, rel.to_owned());
        let ghost ge = e;
        self.seen.push(e);
        proof {
            assert forall|k: (u64, u64)| k != key implies first_path(self.seen@, k) == first_path(before, k) by {
                lemma_first_path_push(before, ge, k);
            }
            lemma_first_path_push(before, ge, key);
        }
        None
    }
}

} // verus!
