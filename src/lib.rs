use vstd::prelude::*;
use crate::diff::{calc_diff_hard, calc_diff_soft, calc_diff_update, hard_diff, soft_diff, update_diff};
use crate::ftree::{empty_dir, DirView};
use crate::ignore::{ignore_entries, ignored};
pub use crate::ftree::{Fnode, FnodeDir, FnodeFile};
pub use crate::ignore::arsygnore_parse;
use crate::plan::{apply_diff, apply_ops, ops_view, remove_diff, remove_ops, Op};

pub mod convergence;
pub mod diff;
pub mod effect;
pub mod execution;
pub mod ftree;
pub mod ignore;
pub mod laws;
pub mod message;
pub mod path;
pub mod plan;
pub mod pruning;

verus! {

/// How the destination is made to reflect the source.
#[derive(Clone, Copy, PartialEq, Eq, Structural, Debug)]
pub enum SyncMode {
    /// Additive; a type conflict is settled by deleting the destination side.
    Mixed,
    /// Additive; a type conflict leaves the destination as it is.
    Soft,
    /// The destination becomes a mirror of the source.
    Hard,
    /// Only files present on both sides are refreshed.
    Update,
}

/// The add-tree and rem-tree of `mode`; Update removes nothing.
pub open spec fn sync_diff(src: DirView, dest: DirView, mode: SyncMode) -> (DirView, DirView) {
    match mode {
        SyncMode::Soft => soft_diff(src, dest, false),
        SyncMode::Mixed => soft_diff(src, dest, true),
        SyncMode::Hard => hard_diff(src, dest),
        SyncMode::Update => (update_diff(src, dest), empty_dir()),
    }
}

/// A tree after an optional ignore text.
pub open spec fn pruned(d: DirView, ignore: Option<String>) -> DirView {
    match ignore {
        Some(text) => ignored(d, ignore_entries(text@)),
        None => d,
    }
}

/// The add-tree and rem-tree that `mode` computes from the two scanned trees.
pub fn calc_diff(src: &FnodeDir, dest: &FnodeDir, mode: SyncMode) -> (r: (FnodeDir, FnodeDir))
    ensures
        (r.0@, r.1@) == sync_diff(src@, dest@, mode),
{
    match mode {
        SyncMode::Soft => calc_diff_soft(src, dest, false),
        SyncMode::Mixed => calc_diff_soft(src, dest, true),
        SyncMode::Hard => calc_diff_hard(src, dest),
        SyncMode::Update => (calc_diff_update(src, dest), FnodeDir::default()),
    }
}

/// What a sync does to the destination, given the scanned source and destination
/// trees: each tree is pruned by its ignore text, the diff of `mode` is computed,
/// and the removals, then the creations and copies, come back in the order in
/// which they are to be carried out.
pub fn sync_plan(
    src: FnodeDir,
    dest: FnodeDir,
    src_ignore: Option<String>,
    dest_ignore: Option<String>,
    mode: SyncMode,
) -> (r: (Vec<Op>, Vec<Op>))
    ensures
        ops_view(r.0@) == remove_ops(sync_diff(pruned(src@, src_ignore), pruned(dest@, dest_ignore), mode).1),
        ops_view(r.1@) == apply_ops(sync_diff(pruned(src@, src_ignore), pruned(dest@, dest_ignore), mode).0),
{
    let mut src = src;
    let mut dest = dest;
    if let Some(text) = src_ignore {
        arsygnore_parse(&mut src, text);
    }
    if let Some(text) = dest_ignore {
        arsygnore_parse(&mut dest, text);
    }
    let (add_diff, rem_diff) = calc_diff(&src, &dest, mode);
    (remove_diff(&rem_diff), apply_diff(&add_diff))
}

} // verus!
