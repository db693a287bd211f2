use sidebundle::closure::{BuildStop, ClosureBuilder, ClosureError};
use sidebundle::elf::{ElfMetadata, ElfParseError};
use sidebundle::facts::{HostFacts, HostQuery};
use sidebundle::model::{BundleEntry, BundleSpec, DependencyClosure, TargetTriple};
use sidebundle::packager::Packager;

struct FakeHost {
    links: Vec<(&'static str, &'static str)>,
    files: Vec<&'static str>,
    elves: Vec<(&'static str, ElfMetadata)>,
}

fn meta(interp: Option<&str>, needed: &[&str], runpaths: &[&str]) -> ElfMetadata {
    ElfMetadata {
        interpreter: interp.map(|s| s.to_string()),
        needed: needed.iter().map(|s| s.to_string()).collect(),
        rpaths: Vec::new(),
        runpaths: runpaths.iter().map(|s| s.to_string()).collect(),
        soname: None,
    }
}

fn normalize(p: &str) -> String {
    let mut parts: Vec<&str> = Vec::new();
    for c in p.split('/') {
        match c {
            "" | "." => {}
            ".." => {
                parts.pop();
            }
            other => parts.push(other),
        }
    }
    format!("/{}", parts.join("/"))
}

impl FakeHost {
    fn resolve(&self, p: &str) -> String {
        let n = normalize(p);
        self.links
            .iter()
            .find(|(from, _)| *from == n)
            .map(|(_, to)| to.to_string())
            .unwrap_or(n)
    }

    fn answer(&self, facts: &mut HostFacts, q: &HostQuery) {
        match q {
            HostQuery::Canonicalize(p) => {
                let target = self.resolve(p);
                if self.files.iter().any(|f| *f == target) {
                    facts.record_canonical(p, Ok(target));
                } else {
                    facts.record_canonical(p, Err("No such file or directory".to_string()));
                }
            }
            HostQuery::Exists(p) => {
                let target = self.resolve(p);
                let found = self.files.iter().any(|f| *f == target);
                facts.record_exists(p, found);
            }
            HostQuery::ReadElf(p) => match self.elves.iter().find(|(path, _)| path == p) {
                Some((_, m)) => facts.record_elf(p, Ok(m.duplicate())),
                None => facts.record_elf(p, Err(ElfParseError::NotElf { path: p.clone() })),
            },
        }
    }

    fn build(&self, builder: &ClosureBuilder, spec: &BundleSpec) -> (Result<DependencyClosure, ClosureError>, HostFacts) {
        let mut facts = HostFacts::new();
        loop {
            match builder.build(spec, &facts) {
                Ok(c) => return (Ok(c), facts),
                Err(BuildStop::Failed(e)) => return (Err(e), facts),
                Err(BuildStop::NeedFact(q)) => self.answer(&mut facts, &q),
            }
        }
    }
}

fn ls_host() -> FakeHost {
    FakeHost {
        links: vec![
            ("/bin/ls", "/usr/bin/ls"),
            ("/lib64/ld-linux-x86-64.so.2", "/usr/lib/x86_64-linux-gnu/ld-linux-x86-64.so.2"),
            ("/lib/x86_64-linux-gnu/libc.so.6", "/usr/lib/x86_64-linux-gnu/libc.so.6"),
        ],
        files: vec![
            "/usr/bin/ls",
            "/usr/lib/x86_64-linux-gnu/ld-linux-x86-64.so.2",
            "/usr/lib/x86_64-linux-gnu/libc.so.6",
            "/usr/lib/x86_64-linux-gnu/libselinux.so.1",
        ],
        elves: vec![
            (
                "/usr/bin/ls",
                meta(Some("/lib64/ld-linux-x86-64.so.2"), &["libselinux.so.1", "libc.so.6"], &[]),
            ),
            ("/usr/lib/x86_64-linux-gnu/libselinux.so.1", meta(None, &["libc.so.6", "ld-linux-x86-64.so.2"], &[])),
            ("/usr/lib/x86_64-linux-gnu/libc.so.6", meta(None, &["ld-linux-x86-64.so.2"], &[])),
        ],
    }
}

fn foo_host(with_lib: bool) -> FakeHost {
    let mut files = vec!["/opt/app/bin/foo", "/lib64/ld-linux-x86-64.so.2", "/usr/lib/libbar.so.1"];
    if with_lib {
        files.push("/opt/app/lib/libbar.so.1");
    }
    FakeHost {
        links: vec![],
        files,
        elves: vec![
            (
                "/opt/app/bin/foo",
                meta(Some("/lib64/ld-linux-x86-64.so.2"), &["libbar.so.1"], &["$ORIGIN/../lib"]),
            ),
            ("/opt/app/lib/libbar.so.1", meta(None, &[], &[])),
            ("/usr/lib/libbar.so.1", meta(None, &[], &[])),
        ],
    }
}

#[test]
fn closure_collects_host_binary() {
    let spec = BundleSpec::new("demo", TargetTriple::linux_x86_64())
        .with_entry(BundleEntry::new("/bin/ls", "ls"));
    let (closure, _) = ls_host().build(&ClosureBuilder::new(), &spec);
    let closure = closure.unwrap();
    assert!(
        !closure.files.is_empty(),
        "expected /bin/ls closure to contain files"
    );
    assert!(
        closure.entry_plans.iter().any(|plan| plan.display_name == "ls"),
        "entry plan should include launcher info"
    );
}

#[test]
fn emits_when_closure_non_empty() {
    let spec = BundleSpec::new("demo", TargetTriple::linux_x86_64())
        .with_entry(BundleEntry::new("/bin/echo", "echo"));
    let closure = DependencyClosure::default();
    let packager = Packager::new();
    let err = packager.emit(&spec, &closure).unwrap_err();
    assert!(err.message().contains("no files"));
}

#[test]
fn ls_closure_maps_each_file_under_payload_once() {
    let spec = BundleSpec::new("demo", TargetTriple::linux_x86_64())
        .with_entry(BundleEntry::new("/bin/ls", "ls"));
    let (closure, _) = ls_host().build(&ClosureBuilder::new(), &spec);
    let closure = closure.unwrap();
    let sources: Vec<&str> = closure.files.iter().map(|f| f.source.as_str()).collect();
    assert_eq!(
        sources,
        vec![
            "/usr/bin/ls",
            "/usr/lib/x86_64-linux-gnu/ld-linux-x86-64.so.2",
            "/usr/lib/x86_64-linux-gnu/libselinux.so.1",
            "/usr/lib/x86_64-linux-gnu/libc.so.6",
        ]
    );
    for f in &closure.files {
        assert_eq!(f.destination, format!("payload{}", f.source));
    }
    let plan = &closure.entry_plans[0];
    assert_eq!(plan.binary_destination, "payload/usr/bin/ls");
    assert_eq!(plan.linker_destination.as_deref(), Some("payload/usr/lib/x86_64-linux-gnu/ld-linux-x86-64.so.2"));
    assert!(plan.requires_linker);
    assert_eq!(plan.library_dirs, vec!["payload/usr/bin", "payload/usr/lib/x86_64-linux-gnu"]);
}

#[test]
fn origin_runpath_is_searched_before_system_dirs() {
    let spec = BundleSpec::new("demo", TargetTriple::linux_x86_64())
        .with_entry(BundleEntry::new("/opt/app/bin/foo", "foo"));
    let (closure, facts) = foo_host(true).build(&ClosureBuilder::new(), &spec);
    let closure = closure.unwrap();
    let sources: Vec<&str> = closure.files.iter().map(|f| f.source.as_str()).collect();
    assert!(sources.contains(&"/opt/app/bin/foo"));
    assert!(sources.contains(&"/opt/app/lib/libbar.so.1"));
    assert!(!sources.contains(&"/usr/lib/libbar.so.1"));
    let plan = &closure.entry_plans[0];
    assert_eq!(plan.library_dirs, vec!["payload/opt/app/bin", "payload/opt/app/lib"]);
    assert!(!facts.existing.iter().any(|(p, _)| p.starts_with("/lib/") || p.starts_with("/usr/")));
}

#[test]
fn missing_library_names_library_and_binary() {
    let spec = BundleSpec::new("demo", TargetTriple::linux_x86_64())
        .with_entry(BundleEntry::new("/opt/app/bin/foo", "foo"));
    let host = FakeHost {
        links: vec![],
        files: vec!["/opt/app/bin/foo", "/lib64/ld-linux-x86-64.so.2"],
        elves: foo_host(false).elves,
    };
    let (result, _) = host.build(&ClosureBuilder::new(), &spec);
    match result {
        Err(ClosureError::LibraryNotFound { name, needed_by }) => {
            assert_eq!(name, "libbar.so.1");
            assert_eq!(needed_by, "/opt/app/bin/foo");
        }
        other => panic!("unexpected {other:?}"),
    }
}

#[test]
fn entry_without_interpreter_is_refused() {
    let spec = BundleSpec::new("demo", TargetTriple::linux_x86_64())
        .with_entry(BundleEntry::new("/bin/true", "true"));
    let host = FakeHost {
        links: vec![],
        files: vec!["/bin/true"],
        elves: vec![("/bin/true", meta(None, &[], &[]))],
    };
    let (result, _) = host.build(&ClosureBuilder::new(), &spec);
    match result {
        Err(ClosureError::MissingInterpreter { path }) => assert_eq!(path, "/bin/true"),
        other => panic!("unexpected {other:?}"),
    }
}

#[test]
fn empty_spec_gives_empty_closure() {
    let spec = BundleSpec::new("demo", TargetTriple::linux_x86_64());
    let facts = HostFacts::new();
    let closure = ClosureBuilder::new().build(&spec, &facts).unwrap();
    assert!(closure.files.is_empty());
    assert!(closure.entry_plans.is_empty());
}

#[test]
fn vdso_and_linker_names_are_never_searched() {
    let spec = BundleSpec::new("demo", TargetTriple::linux_x86_64())
        .with_entry(BundleEntry::new("/bin/x", "x"));
    let host = FakeHost {
        links: vec![],
        files: vec!["/bin/x", "/lib64/ld-linux-x86-64.so.2"],
        elves: vec![(
            "/bin/x",
            meta(Some("/lib64/ld-linux-x86-64.so.2"), &["linux-vdso.so.1", "ld-linux-x86-64.so.2"], &[]),
        )],
    };
    let (result, facts) = host.build(&ClosureBuilder::new(), &spec);
    assert_eq!(result.unwrap().files.len(), 2);
    assert!(facts.existing.is_empty());
    assert!(ClosureBuilder::should_skip("linux-vdso.so.1"));
    assert!(ClosureBuilder::should_skip("ld-linux-x86-64.so.2"));
    assert!(!ClosureBuilder::should_skip("libc.so.6"));
}

#[test]
fn building_twice_gives_the_same_closure() {
    let spec = BundleSpec::new("demo", TargetTriple::linux_x86_64())
        .with_entry(BundleEntry::new("/bin/ls", "ls"));
    let (a, _) = ls_host().build(&ClosureBuilder::new(), &spec);
    let (b, _) = ls_host().build(&ClosureBuilder::new(), &spec);
    let (a, b) = (a.unwrap(), b.unwrap());
    let pa: Vec<(&str, &str)> = a.files.iter().map(|f| (f.source.as_str(), f.destination.as_str())).collect();
    let pb: Vec<(&str, &str)> = b.files.iter().map(|f| (f.source.as_str(), f.destination.as_str())).collect();
    assert_eq!(pa, pb);
}

#[test]
fn two_entries_share_one_payload_tree() {
    let spec = BundleSpec::new("demo", TargetTriple::linux_x86_64())
        .with_entry(BundleEntry::new("/bin/ls", "ls"))
        .with_entry(BundleEntry::new("/usr/bin/ls", "ls2"));
    let (closure, _) = ls_host().build(&ClosureBuilder::new(), &spec);
    let closure = closure.unwrap();
    assert_eq!(closure.files.len(), 4);
    assert_eq!(closure.entry_plans.len(), 2);
    assert_eq!(closure.entry_plans[1].display_name, "ls2");
}

#[test]
fn split_paths_drops_blank_segments() {
    let v = ClosureBuilder::split_paths("/a: :/b::/c ");
    assert_eq!(v, vec!["/a", "/b", "/c "]);
    let b = ClosureBuilder::new().with_ld_library_path("/x:/y");
    assert_eq!(b.ld_library_paths, vec!["/x", "/y"]);
}

#[test]
fn expand_origin_substitutes_and_joins() {
    assert_eq!(ClosureBuilder::expand_origin("$ORIGIN/../lib", "/opt/app/bin"), Some("/opt/app/bin/../lib".to_string()));
    assert_eq!(ClosureBuilder::expand_origin("${ORIGIN}/x", "/o"), Some("/o/x".to_string()));
    assert_eq!(ClosureBuilder::expand_origin("lib", "/o"), Some("/o/lib".to_string()));
    assert_eq!(ClosureBuilder::expand_origin("  ", "/o"), None);
    assert_eq!(ClosureBuilder::expand_origin("/abs", "/o"), Some("/abs".to_string()));
}

#[test]
fn search_order_is_runpath_ld_origin_defaults() {
    let b = ClosureBuilder::new().with_ld_library_path("/ld");
    let m = meta(None, &[], &["$ORIGIN/../lib"]);
    let paths = b.compute_search_paths("/opt/app/bin/foo", &m);
    assert_eq!(
        paths,
        vec![
            "/opt/app/bin/../lib",
            "/ld",
            "/opt/app/bin",
            "/lib",
            "/lib64",
            "/usr/lib",
            "/usr/lib64",
            "/usr/lib/x86_64-linux-gnu",
            "/usr/local/lib"
        ]
    );
}

#[test]
fn locate_library_reports_first_unknown_then_first_hit() {
    let dirs = vec!["/a".to_string(), "/b".to_string(), "/c".to_string()];
    let mut facts = HostFacts::new();
    match ClosureBuilder::locate_library("libz.so", &dirs, &facts) {
        Err(HostQuery::Exists(p)) => assert_eq!(p, "/a/libz.so"),
        other => panic!("unexpected {other:?}"),
    }
    facts.record_exists("/a/libz.so", false);
    facts.record_exists("/b/libz.so", true);
    facts.record_exists("/c/libz.so", true);
    assert_eq!(ClosureBuilder::locate_library("libz.so", &dirs, &facts).unwrap(), Some("/b/libz.so".to_string()));
}

#[test]
fn parse_elf_metadata_rejects_other_bytes() {
    match sidebundle::elf::parse_elf_metadata("/tiny", &[1, 2, 3]) {
        Err(ElfParseError::Parse { path, .. }) => assert_eq!(path, "/tiny"),
        other => panic!("unexpected {other:?}"),
    }
    let text = b"#!/bin/sh\necho hello world\n".to_vec();
    match sidebundle::elf::parse_elf_metadata("/script", &text) {
        Err(ElfParseError::NotElf { path }) => assert_eq!(path, "/script"),
        other => panic!("unexpected {other:?}"),
    }
}

#[test]
fn unreadable_entries_give_io_and_parse_errors() {
    let spec = BundleSpec::new("demo", TargetTriple::linux_x86_64())
        .with_entry(BundleEntry::new("/missing/tool", "tool"));
    let host = FakeHost { links: vec![], files: vec![], elves: vec![] };
    match host.build(&ClosureBuilder::new(), &spec).0 {
        Err(ClosureError::Io { path, message }) => {
            assert_eq!(path, "/missing/tool");
            assert_eq!(message, "No such file or directory");
        }
        other => panic!("unexpected {other:?}"),
    }
    let spec = BundleSpec::new("demo", TargetTriple::linux_x86_64())
        .with_entry(BundleEntry::new("/usr/share/doc.txt", "doc"));
    let host = FakeHost { links: vec![], files: vec!["/usr/share/doc.txt"], elves: vec![] };
    match host.build(&ClosureBuilder::new(), &spec).0 {
        Err(ClosureError::ElfParse { path, source: ElfParseError::NotElf { .. } }) => {
            assert_eq!(path, "/usr/share/doc.txt")
        }
        other => panic!("unexpected {other:?}"),
    }
}

#[test]
fn a_build_only_asks_for_missing_facts() {
    let spec = BundleSpec::new("demo", TargetTriple::linux_x86_64())
        .with_entry(BundleEntry::new("/bin/ls", "ls"));
    let mut facts = HostFacts::new();
    match ClosureBuilder::new().build(&spec, &facts) {
        Err(BuildStop::NeedFact(HostQuery::Canonicalize(p))) => assert_eq!(p, "/bin/ls"),
        other => panic!("unexpected {other:?}"),
    }
    facts.record_canonical("/bin/ls", Ok("/usr/bin/ls".to_string()));
    match ClosureBuilder::new().build(&spec, &facts) {
        Err(BuildStop::NeedFact(HostQuery::ReadElf(p))) => assert_eq!(p, "/usr/bin/ls"),
        other => panic!("unexpected {other:?}"),
    }
}

#[test]
fn empty_interpreter_counts_as_missing() {
    let spec = BundleSpec::new("demo", TargetTriple::linux_x86_64())
        .with_entry(BundleEntry::new("/bin/odd", "odd"));
    let host = FakeHost { links: vec![], files: vec!["/bin/odd"], elves: vec![("/bin/odd", meta(Some(""), &[], &[]))] };
    match host.build(&ClosureBuilder::new(), &spec).0 {
        Err(e @ ClosureError::MissingInterpreter { .. }) => {
            assert_eq!(e.message(), "binary /bin/odd lacks PT_INTERP linker")
        }
        other => panic!("unexpected {other:?}"),
    }
}

#[test]
fn library_dirs_follow_the_walk_order() {
    let spec = BundleSpec::new("demo", TargetTriple::linux_x86_64())
        .with_entry(BundleEntry::new("/app/bin/tool", "tool"));
    let host = FakeHost {
        links: vec![],
        files: vec!["/app/bin/tool", "/lib64/ld.so", "/zz/libz.so", "/aa/liba.so", "/zz/libzz.so"],
        elves: vec![
            ("/app/bin/tool", meta(Some("/lib64/ld.so"), &["libz.so", "liba.so", "linux-vdso.so.1"], &["/zz", "/aa"])),
            ("/zz/libz.so", meta(None, &["libzz.so"], &[])),
            ("/aa/liba.so", meta(None, &[], &[])),
            ("/zz/libzz.so", meta(None, &[], &["/zz"])),
        ],
    };
    let (a, _) = host.build(&ClosureBuilder::new(), &spec);
    let (b, _) = host.build(&ClosureBuilder::new(), &spec);
    let (a, b) = (a.unwrap(), b.unwrap());
    assert_eq!(a.entry_plans[0].library_dirs, vec!["payload/app/bin", "payload/zz", "payload/aa"]);
    let sources: Vec<&str> = a.files.iter().map(|f| f.source.as_str()).collect();
    assert_eq!(sources, vec!["/app/bin/tool", "/lib64/ld.so", "/zz/libz.so", "/aa/liba.so", "/zz/libzz.so"]);
    assert_eq!(a.entry_plans[0].library_dirs, b.entry_plans[0].library_dirs);
    let pb: Vec<&str> = b.files.iter().map(|f| f.source.as_str()).collect();
    assert_eq!(sources, pb);
}
