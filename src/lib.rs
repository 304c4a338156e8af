//! Cross-module type unification: deterministic build fingerprints, per-type
//! tags, and the registry protocol that makes every module that shares a tag
//! use one canonical type descriptor.
use vstd::prelude::*;

pub mod bytes;
pub mod closure;
pub mod digest;
pub mod fingerprint;
pub mod order;
pub mod registry;
pub mod state_tag;
pub mod table;
pub mod type_tag;

use crate::registry::{
    cell_after, lemma_single_canonical, lemma_unify_idempotent, own_descriptor, registry_after,
    registry_after_all, registry_of, unify, unify_result, CellState, DescriptorCell,
    DescriptorHandle, SharedSlot, UnifyError, UnifyOutcome,
};
use crate::type_tag::{final_tag, generate_final_tag, TagError};

verus! {

/// Why `commonize` failed.
pub enum CommonizeError {
    /// The type's tag could not be derived.
    Tag(TagError),
    /// The type's cell could not be rebound.
    Unify(UnifyError),
}

/// Settles the descriptor of a type as a module loads, before the type is
/// exposed: derives the type's tag from the exported table `table`, its
/// declaration path, the toolchain fingerprint `env` and its structural
/// tag, then unifies it through the registry in `slot`. `cell` is the
/// type's descriptor cell and `build` the descriptor its normal path builds.
pub fn commonize(
    table: &Vec<u8>,
    declared_path: &Vec<u8>,
    env: &Vec<u8>,
    structural: u64,
    slot: &mut SharedSlot,
    cell: &mut DescriptorCell,
    build: DescriptorHandle,
) -> (r: Result<UnifyOutcome, CommonizeError>)
    ensures
        match final_tag(table@, declared_path@, env@, structural) {
            Ok(tag) => {
                &&& r == match unify_result(registry_of(old(slot)@), old(cell)@, tag, build) {
                    Ok(o) => Ok(o),
                    Err(e) => Err(CommonizeError::Unify(e)),
                }
                &&& final(slot)@ == Some(registry_after(registry_of(old(slot)@), old(cell)@, tag, build))
                &&& final(cell)@ == cell_after(registry_of(old(slot)@), old(cell)@, tag, build)
            },
            Err(e) => {
                &&& r matches Err(CommonizeError::Tag(x)) && x@ == e
                &&& final(slot)@ == old(slot)@
                &&& final(cell)@ == old(cell)@
            },
        },
{
    match generate_final_tag(table, declared_path, env, structural) {
        Ok(tag) => match unify(slot, cell, tag, build) {
            Ok(o) => Ok(o),
            Err(e) => Err(CommonizeError::Unify(e)),
        },
        Err(e) => Err(CommonizeError::Tag(e)),
    }
}

/// Modules built from the same sources (one exported table, declaration
/// path, toolchain fingerprint and structural tag) that each call
/// `commonize` once, first in their initialisation, all end up with the
/// descriptor of the first of them, which alone is registered.
pub proof fn lemma_commonize_single_canonical(
    table: Seq<u8>,
    declared_path: Seq<u8>,
    env: Seq<u8>,
    structural: u64,
    reg: Map<u64, DescriptorHandle>,
    cells: Seq<CellState>,
    builds: Seq<DescriptorHandle>,
)
    requires
        final_tag(table, declared_path, env, structural) is Ok,
        !reg.contains_key(final_tag(table, declared_path, env, structural)->Ok_0),
        cells.len() == builds.len(),
        cells.len() > 0,
        forall|i: int| 0 <= i < cells.len() ==> !cells[i].exposed,
    ensures
        ({
            let tag = final_tag(table, declared_path, env, structural)->Ok_0;
            let first = own_descriptor(cells[0], builds[0]);
            &&& registry_after_all(reg, cells, tag, builds) == reg.insert(tag, first)
            &&& forall|i: int|
                0 <= i < cells.len() ==> {
                    let before = registry_after_all(reg, cells.take(i), tag, builds.take(i));
                    &&& unify_result(before, #[trigger] cells[i], tag, builds[i]) == (if i == 0 {
                        Ok::<UnifyOutcome, UnifyError>(UnifyOutcome::FirstWriter(first))
                    } else {
                        Ok(UnifyOutcome::Reused(first))
                    })
                    &&& cell_after(before, cells[i], tag, builds[i]).descriptor == Some(first)
                }
        }),
{
    lemma_single_canonical(reg, cells, final_tag(table, declared_path, env, structural)->Ok_0, builds);
}

/// A second `commonize` of a type, after a first one succeeded, returns the
/// same canonical descriptor and changes neither registry nor cell.
pub proof fn lemma_commonize_idempotent(
    table: Seq<u8>,
    declared_path: Seq<u8>,
    env: Seq<u8>,
    structural: u64,
    reg: Map<u64, DescriptorHandle>,
    cell: CellState,
    build: DescriptorHandle,
    rebuild: DescriptorHandle,
)
    requires
        final_tag(table, declared_path, env, structural) is Ok,
        unify_result(reg, cell, final_tag(table, declared_path, env, structural)->Ok_0, build) is Ok,
    ensures
        ({
            let tag = final_tag(table, declared_path, env, structural)->Ok_0;
            let reg1 = registry_after(reg, cell, tag, build);
            let cell1 = cell_after(reg, cell, tag, build);
            let canonical = unify_result(reg, cell, tag, build)->Ok_0.handle_spec();
            &&& unify_result(reg1, cell1, tag, rebuild) == Ok::<UnifyOutcome, UnifyError>(
                UnifyOutcome::Reused(canonical),
            )
            &&& registry_after(reg1, cell1, tag, rebuild) == reg1
            &&& cell_after(reg1, cell1, tag, rebuild) == cell1
        }),
{
    lemma_unify_idempotent(reg, cell, final_tag(table, declared_path, env, structural)->Ok_0, build, rebuild);
}

} // verus!
