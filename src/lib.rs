//! Bundles a host executable with the files it needs at run time.
//!
//! - `closure`: the walk over the ELF linkage graph that decides which
//!   host files a bundle holds and where each one goes, asking `facts`
//!   for what it needs to know of the host.
//! - `trace` and `session`: what a traced program touched, and the
//!   decisions of the ptrace and fanotify tracers.
//! - `launcher`, `template` and `stack`: how a bundle re-enters its
//!   programs, by exec or with a hand-made initial stack.
//! - `packager` and `image`: bundle output and container image roots.
//! - `text`, `path`, `env`, `model`, `elf`: the pieces they share.
pub mod text;
pub mod path;
pub mod env;
pub mod model;
pub mod elf;
pub mod facts;
pub mod closure;
pub mod trace;
pub mod session;
pub mod launcher;
pub mod stack;
pub mod template;
pub mod image;
pub mod packager;
