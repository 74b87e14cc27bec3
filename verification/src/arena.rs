//! The arenas of the `generational_arena` crate, as the resource tracker
//! uses them. An index is handled by its raw parts, the slot and the
//! generation; what an arena holds is a map from those parts to values.
use crate::resources::MeshTexture;
use generational_arena::{Arena, Index};
use vstd::prelude::*;

verus! {

#[verifier::external_type_specification]
#[verifier::external_body]
#[verifier::reject_recursive_types(T)]
pub struct ExArena<T>(Arena<T>);

/// The raw parts of an arena index: its slot and its generation.
pub type ArenaKey = (usize, u64);

/// What an arena of reference counts holds, by index.
pub uninterp spec fn count_slots(a: Arena<usize>) -> Map<(usize, u64), usize>;

/// What an arena of mesh textures holds, by index.
pub uninterp spec fn texture_slots(a: Arena<MeshTexture>) -> Map<(usize, u64), MeshTexture>;

/// `Arena::new` for reference counts: the new arena holds nothing.
#[verifier::external_body]
pub(crate) fn count_arena_new() -> (a: Arena<usize>)
    ensures
        count_slots(a) =~= Map::empty(),
{
    Arena::new()
}

/// `Arena::insert` for reference counts: the value goes into a free slot,
/// so its index is not among those the arena held, and nothing else
/// changes.
#[verifier::external_body]
pub(crate) fn count_arena_insert(a: &mut Arena<usize>, value: usize) -> (k: ArenaKey)
    ensures
        !count_slots(*old(a)).contains_key(k),
        count_slots(*final(a)) == count_slots(*old(a)).insert(k, value),
{
    a.insert(value).into_raw_parts()
}

/// `Arena::get` for reference counts: the value at the index, if the
/// arena holds one there.
#[verifier::external_body]
pub(crate) fn count_arena_get(a: &Arena<usize>, k: ArenaKey) -> (r: Option<usize>)
    ensures
        r == (if count_slots(*a).contains_key(k) {
            Some(count_slots(*a)[k])
        } else {
            None
        }),
{
    a.get(Index::from_raw_parts(k.0, k.1)).copied()
}

/// `Arena`'s `IndexMut` for reference counts: overwrites the value at an
/// index that the arena holds (it panics on any other index).
#[verifier::external_body]
pub(crate) fn count_arena_set(a: &mut Arena<usize>, k: ArenaKey, value: usize)
    requires
        count_slots(*old(a)).contains_key(k),
    ensures
        count_slots(*final(a)) == count_slots(*old(a)).insert(k, value),
{
    a[Index::from_raw_parts(k.0, k.1)] = value;
}

/// `Arena::remove` for reference counts: takes the value at the index out,
/// if the arena holds one there.
#[verifier::external_body]
pub(crate) fn count_arena_remove(a: &mut Arena<usize>, k: ArenaKey) -> (r: Option<usize>)
    ensures
        count_slots(*final(a)) == count_slots(*old(a)).remove(k),
        r == (if count_slots(*old(a)).contains_key(k) {
            Some(count_slots(*old(a))[k])
        } else {
            None
        }),
{
    a.remove(Index::from_raw_parts(k.0, k.1))
}

/// `Arena::iter` for reference counts: every index the arena holds, with
/// its value, each once. The order of the pairs is left open.
#[verifier::external_body]
pub(crate) fn count_arena_entries(a: &Arena<usize>) -> (r: Vec<(ArenaKey, usize)>)
    ensures
        forall|i: int, j: int| 0 <= i < j < r@.len() ==> r@[i].0 != r@[j].0,
        forall|i: int|
            0 <= i < r@.len() ==> count_slots(*a).contains_key(#[trigger] r@[i].0) && count_slots(
                *a,
            )[r@[i].0] == r@[i].1,
        forall|k: ArenaKey|
            #[trigger] count_slots(*a).contains_key(k) ==> exists|i: int|
                0 <= i < r@.len() && #[trigger] r@[i].0 == k,
{
    a.iter().map(|(ix, c)| (ix.into_raw_parts(), *c)).collect()
}

/// `Arena::new` for mesh textures: the new arena holds nothing.
#[verifier::external_body]
pub(crate) fn texture_arena_new() -> (a: Arena<MeshTexture>)
    ensures
        texture_slots(a) =~= Map::empty(),
{
    Arena::new()
}

/// `Arena::insert` for mesh textures, as for reference counts.
#[verifier::external_body]
pub(crate) fn texture_arena_insert(a: &mut Arena<MeshTexture>, value: MeshTexture) -> (k: ArenaKey)
    ensures
        !texture_slots(*old(a)).contains_key(k),
        texture_slots(*final(a)) == texture_slots(*old(a)).insert(k, value),
{
    a.insert(value).into_raw_parts()
}

/// `Arena::get` for mesh textures, as for reference counts.
#[verifier::external_body]
pub(crate) fn texture_arena_get(a: &Arena<MeshTexture>, k: ArenaKey) -> (r: Option<MeshTexture>)
    ensures
        r == (if texture_slots(*a).contains_key(k) {
            Some(texture_slots(*a)[k])
        } else {
            None
        }),
{
    a.get(Index::from_raw_parts(k.0, k.1)).copied()
}

/// `Arena`'s `IndexMut` for mesh textures, as for reference counts.
#[verifier::external_body]
pub(crate) fn texture_arena_set(a: &mut Arena<MeshTexture>, k: ArenaKey, value: MeshTexture)
    requires
        texture_slots(*old(a)).contains_key(k),
    ensures
        texture_slots(*final(a)) == texture_slots(*old(a)).insert(k, value),
{
    a[Index::from_raw_parts(k.0, k.1)] = value;
}

/// `Arena::remove` for mesh textures, as for reference counts.
#[verifier::external_body]
pub(crate) fn texture_arena_remove(a: &mut Arena<MeshTexture>, k: ArenaKey) -> (r: Option<MeshTexture>)
    ensures
        texture_slots(*final(a)) == texture_slots(*old(a)).remove(k),
        r == (if texture_slots(*old(a)).contains_key(k) {
            Some(texture_slots(*old(a))[k])
        } else {
            None
        }),
{
    a.remove(Index::from_raw_parts(k.0, k.1))
}

/// `Arena::iter` for mesh textures: every index the arena holds, with its
/// value, each once. The order of the pairs is left open.
#[verifier::external_body]
pub(crate) fn texture_arena_entries(a: &Arena<MeshTexture>) -> (r: Vec<(ArenaKey, MeshTexture)>)
    ensures
        forall|i: int, j: int| 0 <= i < j < r@.len() ==> r@[i].0 != r@[j].0,
        forall|i: int|
            0 <= i < r@.len() ==> texture_slots(*a).contains_key(#[trigger] r@[i].0) && texture_slots(
                *a,
            )[r@[i].0] == r@[i].1,
        forall|k: ArenaKey|
            #[trigger] texture_slots(*a).contains_key(k) ==> exists|i: int|
                0 <= i < r@.len() && #[trigger] r@[i].0 == k,
{
    a.iter().map(|(ix, t)| (ix.into_raw_parts(), *t)).collect()
}

} // verus!
