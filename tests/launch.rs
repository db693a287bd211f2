use sidebundle::image::{
    image_config_from_value, provider_next, validate_reference, DockerProvider, ImageConfig,
    ImageProviderError, ImageRoot, JsonValue, ProviderState,
};
use sidebundle::launcher::{plan_launch, LaunchError, LauncherConfig, RuntimeMetadata};
use sidebundle::model::EntryBundlePlan;
use sidebundle::packager::{
    frame_shim, hex_lower, le_bytes, sha256_hex, skip_in_archive, HardlinkIndex, PackagerError,
    ShimMetadata,
};
use sidebundle::stack::{build_stack, AuxSnapshot, AuxValues, ElfHeaderInfo, AT_NULL, AT_PHDR, AT_PLATFORM};
use sidebundle::template::{assume_kernel_value, build_library_paths, linker_args, LaunchConfig};

fn s(v: &str) -> String {
    v.to_string()
}

#[test]
fn config_default_is_empty() {
    let cfg = ImageConfig::default();
    assert!(cfg.is_empty());
}

#[test]
fn image_config_parsing() {
    let value = JsonValue::Object(vec![(
        s("Config"),
        JsonValue::Object(vec![
            (s("WorkingDir"), JsonValue::Str(s("/app"))),
            (s("Entrypoint"), JsonValue::Array(vec![JsonValue::Str(s("/bin/sh")), JsonValue::Str(s("-c"))])),
            (s("Cmd"), JsonValue::Array(vec![JsonValue::Str(s("run")), JsonValue::Str(s("service"))])),
            (s("Env"), JsonValue::Array(vec![JsonValue::Str(s("A=1")), JsonValue::Str(s("B=2"))])),
        ]),
    )]);
    let cfg = image_config_from_value(&value);
    assert_eq!(cfg.workdir, Some(String::from("/app")));
    assert_eq!(cfg.entrypoint, vec![String::from("/bin/sh"), String::from("-c")]);
    assert_eq!(cfg.cmd, vec![String::from("run"), String::from("service")]);
    assert_eq!(cfg.env, vec![String::from("A=1"), String::from("B=2")]);
}

#[test]
fn image_config_skips_non_strings_and_missing_config() {
    let value = JsonValue::Object(vec![(
        s("Config"),
        JsonValue::Object(vec![
            (s("WorkingDir"), JsonValue::Str(s(""))),
            (s("Cmd"), JsonValue::Array(vec![JsonValue::Number(s("1")), JsonValue::Str(s("x")), JsonValue::Null])),
        ]),
    )]);
    let cfg = image_config_from_value(&value);
    assert_eq!(cfg.workdir, None);
    assert_eq!(cfg.cmd, vec![s("x")]);
    assert!(image_config_from_value(&JsonValue::Null).is_empty());
}

#[test]
fn image_root_parts_and_references() {
    let root = ImageRoot::new("demo", "/tmp/root", ImageConfig::default());
    assert_eq!(root.reference(), "demo");
    assert_eq!(root.rootfs(), "/tmp/root");
    assert!(root.config().is_empty());
    let (r, p, c) = root.into_parts();
    assert_eq!((r.as_str(), p.as_str(), c.is_empty()), ("demo", "/tmp/root", true));
    assert!(matches!(validate_reference("   "), Err(ImageProviderError::EmptyReference)));
    assert_eq!(validate_reference(" alpine:3 ").unwrap(), "alpine:3");
    assert_eq!(DockerProvider::new().cli_path, "docker");
    assert_eq!(DockerProvider::new().with_cli_path("/usr/bin/podman").cli_path, "/usr/bin/podman");
    match ImageProviderError::not_found("img", "gone") {
        ImageProviderError::NotFound { reference, message } => assert_eq!((reference.as_str(), message.as_str()), ("img", "gone")),
        other => panic!("unexpected {other:?}"),
    }
    assert_eq!(provider_next(ProviderState::Idle, false), ProviderState::PreferredAttempt);
    assert_eq!(provider_next(ProviderState::PreferredAttempt, false), ProviderState::FallbackAttempt);
    assert_eq!(provider_next(ProviderState::FallbackAttempt, false), ProviderState::Failed);
    assert_eq!(provider_next(ProviderState::PreferredAttempt, true), ProviderState::Ready);
}

fn foo_config() -> LauncherConfig {
    LauncherConfig {
        dynamic: true,
        binary: s("payload/opt/app/bin/foo"),
        linker: Some(s("payload/lib64/ld-linux-x86-64.so.2")),
        library_paths: vec![s("payload/opt/app/lib")],
        metadata: None,
    }
}

#[test]
fn launcher_reconstructs_dynamic_invocation() {
    let args = vec![s("bin/foo"), s("arg1"), s("arg2")];
    let live = vec![(s("HOME"), s("/home/u")), (s("LD_LIBRARY_PATH"), s("/usr/lib"))];
    let plan = plan_launch("/root/b", &foo_config(), &args, &live).unwrap();
    assert_eq!(plan.program, "/root/b/payload/lib64/ld-linux-x86-64.so.2");
    assert_eq!(
        plan.argv,
        vec![
            s("/root/b/payload/lib64/ld-linux-x86-64.so.2"),
            s("/root/b/payload/opt/app/bin/foo"),
            s("arg1"),
            s("arg2")
        ]
    );
    let get = |k: &str| plan.env.iter().find(|(n, _)| n == k).map(|(_, v)| v.clone());
    assert_eq!(get("LD_LIBRARY_PATH"), Some(s("/root/b/payload/opt/app/lib")));
    assert_eq!(get("SIDEBUNDLE_ROOT"), Some(s("/root/b")));
    assert_eq!(get("HOME"), Some(s("/home/u")));
    assert_eq!(plan.env.len(), 3);
}

#[test]
fn static_launch_runs_entry_with_recorded_env() {
    let cfg = LauncherConfig {
        dynamic: false,
        binary: s("payload/bin/true"),
        linker: None,
        library_paths: vec![],
        metadata: Some(RuntimeMetadata { env: vec![(s("A"), s("1"))], auxv: vec![], platform: None, random: None }),
    };
    let plan = plan_launch("/b", &cfg, &vec![s("true")], &vec![(s("HOME"), s("/h"))]).unwrap();
    assert_eq!(plan.program, "/b/payload/bin/true");
    assert_eq!(plan.argv, vec![s("/b/payload/bin/true")]);
    assert_eq!(plan.env, vec![(s("A"), s("1")), (s("SIDEBUNDLE_ROOT"), s("/b"))]);
    let broken = LauncherConfig { linker: None, ..foo_config() };
    assert!(matches!(plan_launch("/b", &broken, &vec![], &vec![]), Err(LaunchError::MissingLinker)));
}

#[test]
fn launcher_config_follows_plan() {
    let plan = EntryBundlePlan {
        display_name: s("foo"),
        binary_source: s("/opt/app/bin/foo"),
        binary_destination: s("payload/opt/app/bin/foo"),
        linker_source: Some(s("/lib64/ld-linux-x86-64.so.2")),
        linker_destination: Some(s("payload/lib64/ld-linux-x86-64.so.2")),
        library_dirs: vec![s("payload/opt/app/bin")],
        requires_linker: true,
    };
    let cfg = LauncherConfig::from_plan(&plan, None);
    assert!(cfg.dynamic);
    assert_eq!(cfg.linker.as_deref(), Some("payload/lib64/ld-linux-x86-64.so.2"));
    let static_plan = EntryBundlePlan { requires_linker: false, linker_source: None, linker_destination: None, ..plan };
    let cfg = LauncherConfig::from_plan(&static_plan, None);
    assert!(!cfg.dynamic);
    assert_eq!(cfg.linker, None);
    assert_eq!(cfg.binary, "payload/opt/app/bin/foo");
}

#[test]
fn userland_stack_is_aligned_and_ordered() {
    let header = ElfHeaderInfo { e_entry: 0x1000, e_phoff: 64, e_phnum: 11, e_phentsize: 56 };
    let values = AuxValues { secure: 0, clktck: 100, hwcap: 0, egid: 1, gid: 1, euid: 1, uid: 1, pagesz: 4096 };
    let snap = AuxSnapshot::new(vec![(6, 16384)]).with_platform(Some(s("x86_64")));
    let resolved = AuxValues::resolve(Some(&snap), &values);
    assert_eq!(resolved.pagesz, 16384);
    assert_eq!(resolved.clktck, 100);
    let platform = snap.platform().unwrap().as_bytes().to_vec();
    for extra in 0..4usize {
        let args: Vec<Vec<u8>> = (0..=extra).map(|i| vec![b'a'; i + 1]).collect();
        let env = vec![b"A=1".to_vec()];
        let img = build_stack(None, 0x400000, &header, 0x7fff_0000, &b"/bin/x".to_vec(), &args, &env, &platform, &[7u8; 16], &resolved);
        assert_eq!((8 * img.words.len() + img.padding + img.strings.len()) % 16, 0);
        assert_eq!(img.words[0], args.len() as u64);
        let aux_start = 3 + args.len() + env.len();
        assert_eq!(img.words[aux_start], AT_PHDR);
        assert_eq!(img.words[aux_start + 1], 0x400000 + 64);
        assert_eq!(img.words[aux_start + 32], AT_PLATFORM);
        assert_eq!(img.words[img.words.len() - 2], AT_NULL);
        assert_eq!(img.words[img.words.len() - 1], 0);
    }
}

#[test]
fn text_config_is_parsed() {
    let cfg = LaunchConfig::parse("# comment\n\ndynamic = 1\nlinker=payload/ld.so\nbinary = payload/bin/foo\nlibrary_paths = a: b ::c\n").unwrap();
    assert!(cfg.dynamic);
    assert_eq!(cfg.linker.as_deref(), Some("payload/ld.so"));
    assert_eq!(cfg.binary, "payload/bin/foo");
    assert_eq!(cfg.library_paths, vec![s("a"), s("b"), s("c")]);
    assert_eq!(LaunchConfig::parse("dynamic=0\n").unwrap_err(), "binary path missing");
    assert_eq!(LaunchConfig::parse("binary=x\nnonsense\n").unwrap_err(), "invalid config line");
}

#[test]
fn library_paths_put_hwcaps_last() {
    let raw = vec![s("payload/lib/glibc-hwcaps/x86-64-v3"), s("payload/lib")];
    assert_eq!(build_library_paths("/b", &raw, false), vec![s("/b/payload/lib")]);
    assert_eq!(
        build_library_paths("/b", &raw, true),
        vec![s("/b/payload/lib"), s("/b/payload/lib/glibc-hwcaps/x86-64-v3")]
    );
    assert_eq!(
        linker_args("/b/foo", &vec![s("x")], &vec![s("/l1"), s("/l2")]),
        vec![s("--library-path"), s("/l1:/l2"), s("/b/foo"), s("x")]
    );
    assert_eq!(linker_args("/b/foo", &vec![], &vec![]), vec![s("/b/foo")]);
    assert_eq!(assume_kernel_value(true, None), None);
    assert_eq!(assume_kernel_value(false, Some(s(" "))), Some(s("4.14.0")));
    assert_eq!(assume_kernel_value(false, Some(s("5.4.0"))), Some(s("5.4.0")));
}

#[test]
fn shim_is_framed_with_little_endian_lengths() {
    assert_eq!(le_bytes(0x0102), vec![2, 1, 0, 0, 0, 0, 0, 0]);
    let shim = frame_shim(&[0xEE], &[1, 2, 3], &[9, 9]);
    assert_eq!(shim, vec![0xEE, 1, 2, 3, 9, 9, 3, 0, 0, 0, 0, 0, 0, 0, 2, 0, 0, 0, 0, 0, 0, 0]);
}

#[test]
fn archive_digest_is_hex_sha256() {
    assert_eq!(hex_lower(&[0x00, 0xab, 0x7f]), "00ab7f");
    assert_eq!(
        sha256_hex(b"abc"),
        "ba7816bf8f01cfea414140de5dae2223b00361a396177a9cb410ff61f20015ad"
    );
    let meta = ShimMetadata::new("demo", "ls", "ff");
    assert_eq!(meta.default_extract_path, "~/.cache/sidebundle/demo");
    assert_eq!(PackagerError::Shim(s("x")).message(), "shim error: x");
}

#[test]
fn archive_walk_skips_shims_and_links_repeated_inodes() {
    assert!(skip_in_archive(""));
    assert!(skip_in_archive("shims"));
    assert!(skip_in_archive("shims/ls"));
    assert!(!skip_in_archive("shimsx"));
    assert!(!skip_in_archive("payload/a.txt"));
    let mut idx = HardlinkIndex::new();
    assert_eq!(idx.link_target((1, 10), "payload/a.txt"), None);
    assert_eq!(idx.link_target((1, 10), "payload/b.txt"), Some(s("payload/a.txt")));
    assert_eq!(idx.link_target((2, 10), "payload/c.txt"), None);
}

#[test]
fn userland_stack_pointers_reach_their_strings() {
    let header = ElfHeaderInfo { e_entry: 0x40, e_phoff: 0x40, e_phnum: 2, e_phentsize: 56 };
    let values = AuxValues { secure: 0, clktck: 100, hwcap: 0, egid: 0, gid: 0, euid: 0, uid: 0, pagesz: 4096 };
    let top = 0x10_0000usize;
    let args = vec![b"prog".to_vec(), b"-x".to_vec()];
    let env = vec![b"K=V".to_vec()];
    let img = build_stack(Some(0x7000), 0x1000, &header, top, &b"/bin/prog".to_vec(), &args, &env, &b"x86_64".to_vec(), &[9u8; 16], &values);
    let base = top - img.strings.len();
    let read = |addr: u64| {
        let off = addr as usize - base;
        let end = img.strings[off..].iter().position(|b| *b == 0).unwrap() + off;
        img.strings[off..end].to_vec()
    };
    assert_eq!(read(img.words[1]), b"prog".to_vec());
    assert_eq!(read(img.words[2]), b"-x".to_vec());
    assert_eq!(read(img.words[4]), b"K=V".to_vec());
    let aux = 3 + args.len() + env.len();
    assert_eq!(img.words[aux + 2 * 4 + 1], 0x7000);
    assert_eq!(img.words[aux + 2 * 6 + 1], 0x1040);
    assert_eq!(read(img.words[aux + 2 * 15 + 1]), b"/bin/prog".to_vec());
    assert_eq!(read(img.words[aux + 2 * 16 + 1]), b"x86_64".to_vec());
    assert_eq!(&img.strings[..16], &[9u8; 16]);
}
