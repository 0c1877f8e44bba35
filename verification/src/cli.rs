//! Command-line handling: `--config <path>` selects the configuration file.
use vstd::prelude::*;

verus! {

/// The views of the command-line arguments.
pub open spec fn arg_views(args: Seq<String>) -> Seq<Seq<char>> {
    args.map_values(|a: String| a@)
}

/// The configuration path chosen by the arguments from index `i` on, given
/// the choice `cur` so far: each `--config` followed by a value selects it,
/// and a trailing `--config` with no value is ignored.
pub open spec fn config_path_from(args: Seq<Seq<char>>, i: int, cur: Seq<char>) -> Seq<char>
    decreases args.len() - i,
{
    if i < 0 || i >= args.len() {
        cur
    } else if args[i] == "--config"@ {
        if i + 1 < args.len() {
            config_path_from(args, i + 2, args[i + 1])
        } else {
            cur
        }
    } else {
        config_path_from(args, i + 1, cur)
    }
}

/// The configuration path for a full argument list (program name first);
/// `config.toml` unless `--config <path>` says otherwise.
pub open spec fn config_path(args: Seq<Seq<char>>) -> Seq<char> {
    config_path_from(args, 1, "config.toml"@)
}

/// Parses `--config <path>` from the process arguments (program name first).
pub fn parse_args(args: &Vec<String>) -> (path: String)
    ensures
        path@ == config_path(arg_views(args@)),
{
    let ghost views = arg_views(args@);
    let flag = String::from_str("--config");
    let mut path = String::from_str("config.toml");
    let mut i: usize = 1;
    while i < args.len()
        invariant
            1 <= i,
            views == arg_views(args@),
            flag@ == "--config"@,
            config_path(views) == config_path_from(views, i as int, path@),
        decreases args.len() - i,
    {
        assert(views[i as int] == args@[i as int]@);
        if args[i] == flag {
            if i + 1 < args.len() {
                assert(views[i + 1] == args@[i + 1]@);
                path = args[i + 1].clone();
                i = i + 2;
            } else {
                i = i + 1;
                assert(config_path_from(views, i as int, path@) == path@);
            }
        } else {
            i = i + 1;
        }
    }
    path
}

} // verus!
