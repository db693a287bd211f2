//! The launcher of a bundle: its per-entry configuration, and how an
//! invocation of `bin/<entry>` becomes the program, arguments and
//! environment that are executed.
use vstd::prelude::*;
use crate::env::{env_fold, env_put_sorted, env_view, merge_env, sorted_env};
use crate::model::{copy_opt, copy_strings, opt_view, EntryBundlePlan};
use crate::path::{join_path, path_join};
use crate::text::{join, join_seq, views};

verus! {

/// What the trace saw of the process start, replayed by the launcher.
#[derive(Debug)]
pub struct RuntimeMetadata {
    pub env: Vec<(String, String)>,
    pub auxv: Vec<(u64, u64)>,
    pub platform: Option<String>,
    pub random: Option<[u8; 16]>,
}

/// The configuration a launcher reads for one entry.
#[derive(Debug)]
pub struct LauncherConfig {
    pub dynamic: bool,
    pub binary: String,
    pub linker: Option<String>,
    pub library_paths: Vec<String>,
    pub metadata: Option<RuntimeMetadata>,
}

impl LauncherConfig {
    /// The configuration of an entry laid out by `plan`: dynamic exactly
    /// when the plan requires a linker that it names.
    pub fn from_plan(plan: &EntryBundlePlan, metadata: Option<RuntimeMetadata>) -> (r: Self)
        ensures
            r.dynamic == (plan.requires_linker && plan.linker_destination is Some),
            r.dynamic <==> r.linker is Some,
            r.dynamic ==> opt_view(r.linker) == opt_view(plan.linker_destination),
            r.binary@ == plan.binary_destination@,
            views(r.library_paths@) == views(plan.library_dirs@),
            r.metadata == metadata,
    {
        let linker = if plan.requires_linker {
            copy_opt(&plan.linker_destination)
        } else {
            None
        };
        LauncherConfig {
            dynamic: linker.is_some(),
            binary: plan.binary_destination.clone(),
            linker,
            library_paths: copy_strings(&plan.library_dirs),
            metadata,
        }
    }
}

/// What the launcher executes.
#[derive(Debug)]
pub struct LaunchPlan {
    pub program: String,
    pub argv: Vec<String>,
    pub env: Vec<(String, String)>,
}

#[derive(Debug)]
pub enum LaunchError {
    MissingLinker,
}

/// The library directories of the bundle as absolute paths, joined with
/// colons.
pub open spec fn library_path_value(root: Seq<char>, rels: Seq<Seq<char>>) -> Seq<char> {
    join_seq(rels.map_values(|r: Seq<char>| path_join(root, r)), seq![':'])
}

/// The environment of the launched program: the recorded one when there
/// is runtime metadata, else the launcher's own, with `SIDEBUNDLE_ROOT`
/// set to the bundle root and, when there are library directories,
/// `LD_LIBRARY_PATH` set to them.
pub open spec fn launch_env_spec(
    root: Seq<char>,
    config: LauncherConfig,
    live: Seq<(String, String)>,
) -> Map<Seq<char>, Seq<char>> {
    let base = match config.metadata {
        Some(m) => env_fold(Map::empty(), m.env@),
        None => env_fold(Map::empty(), live),
    };
    let with_root = base.insert("SIDEBUNDLE_ROOT"@, root);
    if config.library_paths@.len() > 0 {
        with_root.insert("LD_LIBRARY_PATH"@, library_path_value(root, views(config.library_paths@)))
    } else {
        with_root
    }
}

/// The arguments: for a dynamic entry the linker and then the entry, for
/// a static one the entry alone, followed by the caller's arguments after
/// its `argv[0]`.
pub open spec fn launch_argv_spec(
    root: Seq<char>,
    config: LauncherConfig,
    args: Seq<Seq<char>>,
) -> Seq<Seq<char>> {
    let entry = path_join(root, config.binary@);
    let rest = if args.len() > 0 {
        args.drop_first()
    } else {
        args
    };
    if config.dynamic {
        seq![path_join(root, config.linker->0@), entry] + rest
    } else {
        seq![entry] + rest
    }
}

/// The program, arguments and environment for running `config`'s entry
/// from the bundle at `bundle_root`; `args` is the caller's argument
/// vector and `live_env` its environment. The environment comes out
/// sorted by name.
pub fn plan_launch(
    bundle_root: &str,
    config: &LauncherConfig,
    args: &Vec<String>,
    live_env: &Vec<(String, String)>,
) -> (r: Result<LaunchPlan, LaunchError>)
    ensures
        match r {
            Ok(p) => {
                &&& config.dynamic ==> config.linker is Some
                &&& p.program@ == if config.dynamic {
                    path_join(bundle_root@, config.linker->0@)
                } else {
                    path_join(bundle_root@, config.binary@)
                }
                &&& views(p.argv@) == launch_argv_spec(bundle_root@, *config, views(args@))
                &&& sorted_env(p.env@)
                &&& env_view(p.env@) == launch_env_spec(bundle_root@, *config, live_env@)
            },
            Err(LaunchError::MissingLinker) => config.dynamic && config.linker is None,
        },
{
    let entry = join_path(bundle_root, config.binary.as_str());
    let mut env = match &config.metadata {
        Some(m) => merge_env(&m.env, &Vec::new()),
        None => merge_env(live_env, &Vec::new()),
    };
    env_put_sorted(&mut env, "SIDEBUNDLE_ROOT".to_owned(), bundle_root.to_owned());
    if config.library_paths.len() > 0 {
        let mut abs: Vec<String> = Vec::new();
        let mut i: usize = 0;
        while i < config.library_paths.len()
            invariant
                i <= config.library_paths@.len(),
                views(abs@) == views(config.library_paths@.subrange(0, i as int)).map_values(
                    |r: Seq<char>| path_join(bundle_root@, r),
                ),
            decreases config.library_paths@.len() - i,
        {
            let ghost before = views(abs@);
            let ghost lp = config.library_paths@;
            assert(views(lp.subrange(0, i + 1)) =~= views(lp.subrange(0, i as int)).push(lp[i as int]@));
            let v = join_path(bundle_root, config.library_paths[i].as_str());
            abs.push(v);
            assert(views(abs@) =~= before.push(v@));
            assert(views(abs@) =~= views(config.library_paths@.subrange(0, i + 1)).map_values(
                |r: Seq<char>| path_join(bundle_root@, r),
            ));
            i += 1;
        }
        assert(config.library_paths@.subrange(0, config.library_paths@.len() as int)
            =~= config.library_paths@);
        let joined = join(&abs, ":");
        proof {
            reveal_strlit(":");
        }
        assert(":"@ =~= seq![':']);
        env_put_sorted(&mut env, "LD_LIBRARY_PATH".to_owned(), joined);
    }
    let mut argv: Vec<String> = Vec::new();
    let program = if config.dynamic {
        match &config.linker {
            Some(l) => {
                let linker = join_path(bundle_root, l.as_str());
                argv.push(linker.clone());
                linker
            },
            None => {
                return Err(LaunchError::MissingLinker);
            },
        }
    } else {
        entry.clone()
    };
    argv.push(entry);
    let ghost head = views(argv@);
    let start: usize = if args.len() > 0 {
        1
    } else {
        0
    };
    let mut k: usize = start;
    assert(head + views(args@).subrange(start as int, start as int) =~= head);
    while k < args.len()
        invariant
            start <= k <= args@.len(),
            start == (if args@.len() > 0 {
                1usize
            } else {
                0usize
            }),
            views(argv@) == head + views(args@).subrange(start as int, k as int),
        decreases args@.len() - k,
    {
        let ghost before = views(argv@);
        argv.push(args[k].clone());
        assert(views(argv@) =~= before.push(args@[k as int]@));
        assert(views(args@).subrange(start as int, k + 1) =~= views(args@).subrange(
            start as int,
            k as int,
        ).push(args@[k as int]@));
        k += 1;
    }
    proof {
        if args@.len() > 0 {
            assert(views(args@).subrange(1, args@.len() as int) =~= views(args@).drop_first());
        } else {
            assert(views(args@).subrange(0, 0) =~= views(args@));
        }
    }
    Ok(LaunchPlan { program, argv, env })
}

} // verus!
