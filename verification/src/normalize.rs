//! The passes that bring a program into its canonical form.

use crate::ast::{ErrV, NameEntryV, NameMap, Program, ProgramV, VclResult};
use crate::table::Table;
use crate::vmod::VmodSpec;
use vstd::prelude::*;
use vstd::string::*;

pub mod arg_style;
pub mod commuting;
pub mod crossing;
pub mod fixpoint;
pub mod invariance;
pub mod keeping;
pub mod literals;
pub mod merge;
pub mod numbering;
pub mod objects;
pub mod once;
pub mod only_names;
pub mod probes;
pub mod rename;
pub mod renaming;
pub mod reordering;
pub mod restyled;
pub mod shape;
pub mod shuffle;
pub mod shuffled_hooks;
pub mod shuffled_probes;
pub mod sort;
pub mod spelling;
pub mod units;
pub mod vmod_args;

verus! {

/// A program after the passes that come before the renaming.
pub open spec fn prepared(p: ProgramV, specs: Map<Seq<char>, VmodSpec>) -> core::result::Result<
    ProgramV,
    ErrV,
> {
    match vmod_args::pass_program(literals::lit_program(p), specs) {
        Ok(q) => Ok(probes::lifted_program(q)),
        Err(e) => Err(e),
    }
}

/// A prepared program with its names and its order.
pub open spec fn finished(p: ProgramV, rename: bool) -> ProgramV {
    if rename {
        sort::sorted_program(rename::renamed_program(p))
    } else {
        sort::sorted_program(rename::merged_only(p))
    }
}

/// The renamings of a prepared program.
pub open spec fn finished_names(p: ProgramV, rename: bool) -> Seq<NameEntryV> {
    if rename {
        rename::program_names(p)
    } else {
        seq![]
    }
}

/// Brings a program into its canonical form: its literals, the arguments of its
/// vmod calls, its probes, its names and the order of its declarations. Where
/// `rename` is not set, the names stay, but for those that no program can have.
/// Returns the renamings. Where the arguments of a call do not fit its signature
/// nothing but the literals is changed.
pub fn normalize(p: &mut Program, specs: &Table<VmodSpec>, rename: bool) -> (r: VclResult<NameMap>)
    ensures
        match (prepared(old(p)@, specs@), r) {
            (Ok(q), Ok(names)) => final(p)@ == finished(q, rename) && names@ == finished_names(
                q,
                rename,
            ),
            (Err(x), Err(e)) => e@ == x && final(p)@ == literals::lit_program(old(p)@),
            _ => false,
        },
{
    literals::run(p);
    vmod_args::run(p, specs)?;
    probes::run(p);
    let names = if rename {
        rename::run(p)
    } else {
        rename::merge_only(p);
        NameMap::default()
    };
    sort::run(p);
    Ok(names)
}

} // verus!
