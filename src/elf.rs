//! What the closure builder needs from an ELF file: interpreter,
//! needed libraries, search paths and soname.
use vstd::prelude::*;
use crate::model::{copy_opt, copy_strings, opt_view};
use crate::text::{concat, views};

verus! {

#[derive(Debug)]
pub struct ElfMetadata {
    pub interpreter: Option<String>,
    pub needed: Vec<String>,
    pub rpaths: Vec<String>,
    pub runpaths: Vec<String>,
    pub soname: Option<String>,
}

/// What an `ElfMetadata` holds, as plain sequences.
pub struct ElfMetadataView {
    pub interpreter: Option<Seq<char>>,
    pub needed: Seq<Seq<char>>,
    pub rpaths: Seq<Seq<char>>,
    pub runpaths: Seq<Seq<char>>,
    pub soname: Option<Seq<char>>,
}

impl View for ElfMetadata {
    type V = ElfMetadataView;

    open spec fn view(&self) -> ElfMetadataView {
        ElfMetadataView {
            interpreter: opt_view(self.interpreter),
            needed: views(self.needed@),
            rpaths: views(self.rpaths@),
            runpaths: views(self.runpaths@),
            soname: opt_view(self.soname),
        }
    }
}

impl ElfMetadata {
    /// A copy with the same contents.
    pub fn duplicate(&self) -> (r: Self)
        ensures
            r@ == self@,
    {
        ElfMetadata {
            interpreter: copy_opt(&self.interpreter),
            needed: copy_strings(&self.needed),
            rpaths: copy_strings(&self.rpaths),
            runpaths: copy_strings(&self.runpaths),
            soname: copy_opt(&self.soname),
        }
    }
}

#[derive(Debug, Clone)]
pub enum ElfParseError {
    Io { path: String, message: String },
    Parse { path: String, message: String },
    NotElf { path: String },
}

impl ElfParseError {
    pub open spec fn message_spec(&self) -> Seq<char> {
        match self {
            ElfParseError::Io { path, message } => "failed to read ELF "@ + path@ + ": "@ + message@,
            ElfParseError::Parse { path, message } => "failed to parse ELF "@ + path@ + ": "@
                + message@,
            ElfParseError::NotElf { path } => path@ + " is not an ELF binary"@,
        }
    }

    /// The human-readable message of the error.
    pub fn message(&self) -> (r: String)
        ensures
            r@ == self.message_spec(),
    {
        match self {
            ElfParseError::Io { path, message } => {
                let a = concat("failed to read ELF ", path.as_str());
                let b = concat(a.as_str(), ": ");
                concat(b.as_str(), message.as_str())
            },
            ElfParseError::Parse { path, message } => {
                let a = concat("failed to parse ELF ", path.as_str());
                let b = concat(a.as_str(), ": ");
                concat(b.as_str(), message.as_str())
            },
            ElfParseError::NotElf { path } => concat(path.as_str(), " is not an ELF binary"),
        }
    }
}

/// How a byte string reads as an object file.
pub enum ElfReading {
    Malformed,
    NotElf,
    Elf(ElfMetadataView),
}

/// What goblin's object parser makes of `data`.
pub uninterp spec fn goblin_reading_of(data: Seq<u8>) -> ElfReading;

/// Relies on `goblin::Object::parse`: an error for bytes that it cannot
/// parse, another kind of object, or an ELF object whose interpreter,
/// libraries, rpaths, runpaths and soname are handed on; the outcome is a
/// function of the bytes alone.
#[verifier::external_body]
fn goblin_parse(data: &[u8]) -> (r: Result<Option<ElfMetadata>, String>)
    ensures
        match r {
            Err(_) => goblin_reading_of(data@) == ElfReading::Malformed,
            Ok(None) => goblin_reading_of(data@) == ElfReading::NotElf,
            Ok(Some(m)) => goblin_reading_of(data@) == ElfReading::Elf(m@),
        },
{
    match goblin::Object::parse(data) {
        Err(e) => Err(e.to_string()),
        Ok(goblin::Object::Elf(elf)) => Ok(Some(ElfMetadata {
            interpreter: elf.interpreter.map(|s| s.to_string()),
            needed: elf.libraries.iter().map(|s| s.to_string()).collect(),
            rpaths: elf.rpaths.iter().map(|s| s.to_string()).collect(),
            runpaths: elf.runpaths.iter().map(|s| s.to_string()).collect(),
            soname: elf.soname.map(|s| s.to_string()),
        })),
        Ok(_) => Ok(None),
    }
}

/// Reads the metadata of the ELF file at `path` from its contents.
pub fn parse_elf_metadata(path: &str, data: &[u8]) -> (r: Result<ElfMetadata, ElfParseError>)
    ensures
        match r {
            Ok(m) => goblin_reading_of(data@) == ElfReading::Elf(m@),
            Err(ElfParseError::Parse { path: p, .. }) => p@ == path@ && goblin_reading_of(data@)
                == ElfReading::Malformed,
            Err(ElfParseError::NotElf { path: p }) => p@ == path@ && goblin_reading_of(data@)
                == ElfReading::NotElf,
            Err(ElfParseError::Io { .. }) => false,
        },
{
    match goblin_parse(data) {
        Err(message) => Err(ElfParseError::Parse { path: path.to_owned(), message }),
        Ok(None) => Err(ElfParseError::NotElf { path: path.to_owned() }),
        Ok(Some(m)) => Ok(m),
    }
}

} // verus!
