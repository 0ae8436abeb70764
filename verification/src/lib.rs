use vstd::prelude::*;

pub mod bytes;
pub mod cargo;
pub mod cli;
pub mod detach;
pub mod document;
pub mod keys;
pub mod manifest;
pub mod members;
pub mod parse;
pub mod restore;
pub mod strip;
pub mod term;
pub mod version;

use crate::cli::{Args, any_dev_target_arg};
use crate::manifest::{Error, Plan, WorkspaceInput, error_valid, plan_valid};

verus! {

/// Whether a run removes development dependencies: yes, unless the
/// subcommand always needs them or an argument selects targets that do.
pub open spec fn removes_dev_deps(args: &Args) -> bool {
    !(args.subcommand is BuiltinDev) && !any_dev_target_arg(
        args.cargo_args@.map_values(|a: Vec<u8>| a@),
    )
}

/// Decides, from the subcommand and the arguments passed through, whether
/// development dependencies are removed for this run, and plans the whole
/// workspace transaction accordingly, with the planner's full contract.
pub fn try_main(ws: &WorkspaceInput, args: &Args) -> (r: Result<Plan, Error>)
    ensures
        match r {
            Result::Ok(plan) => plan_valid(
                ws@,
                args.no_private,
                args.detach_path_deps,
                removes_dev_deps(args),
                plan.ids@,
                plan.actions@.map_values(|a: crate::manifest::Action| a@),
                plan.detach_workspace,
            ),
            Result::Err(e) => error_valid(
                ws@,
                args.no_private,
                args.detach_path_deps,
                removes_dev_deps(args),
                args.subcommand.spec_str(),
                e,
            ),
        },
{
    let no_dev_deps = !args.subcommand.always_needs_dev_deps() && !crate::cli::args_have_dev_target(
        &args.cargo_args,
    );
    crate::manifest::with(ws, args, no_dev_deps)
}

} // verus!
