//! The handle store: a generational slot map that names each node by a small,
//! copyable handle.

use vstd::prelude::*;
use crate::node::Node;

verus! {

/// The key type of `slotmap`: a slot index with the slot's version. Its
/// inside is not visible to the verifier.
#[verifier::external_type_specification]
#[verifier::external_body]
pub struct ExDefaultKey(slotmap::DefaultKey);

/// A handle to a node. Two handles are equal exactly when they name the same
/// slot in the same version.
pub type NodeHandle = slotmap::DefaultKey;

/// The largest number of nodes that a store holds.
pub const MAX_NODES: usize = 0xFFFF_FFFE;

/// The slot map that holds the nodes. The map's type is bounded by the key
/// trait of its crate, which the verifier cannot be told of, so the map is
/// kept here and is opaque to it.
#[verifier::external_body]
#[derive(Debug)]
pub struct Arena {
    slots: slotmap::HopSlotMap<slotmap::DefaultKey, Node>,
}

/// The live entries of the store: each handle that resolves, with its node.
pub uninterp spec fn arena_contents(arena: Arena) -> Map<slotmap::DefaultKey, Node>;

/// Calls `HopSlotMap::new`, which makes an empty map.
#[verifier::external_body]
pub(crate) fn arena_new() -> (arena: Arena)
    ensures
        arena_contents(arena).dom() == Set::<NodeHandle>::empty(),
{
    Arena { slots: slotmap::HopSlotMap::new() }
}

/// Calls `HopSlotMap::len`, the number of live entries.
#[verifier::external_body]
pub(crate) fn arena_len(arena: &Arena) -> (n: usize)
    ensures
        n == arena_contents(*arena).len(),
{
    arena.slots.len()
}

/// Calls `HopSlotMap::insert`, which stores the node under a key that no live
/// entry has and leaves the other entries as they are. It panics when the map
/// is full, which the precondition rules out.
#[verifier::external_body]
pub(crate) fn arena_insert(arena: &mut Arena, node: Node) -> (key: NodeHandle)
    requires
        arena_contents(*old(arena)).dom().finite(),
        arena_contents(*old(arena)).len() < MAX_NODES,
    ensures
        !arena_contents(*old(arena)).contains_key(key),
        arena_contents(*final(arena)) == arena_contents(*old(arena)).insert(key, node),
{
    arena.slots.insert(node)
}

/// Calls `HopSlotMap::get`: the node of a live key, and nothing for any
/// other key.
#[verifier::external_body]
pub(crate) fn arena_get(arena: &Arena, key: NodeHandle) -> (found: Option<&Node>)
    ensures
        found is Some <==> arena_contents(*arena).contains_key(key),
        found matches Some(node) ==> *node == arena_contents(*arena)[key],
{
    arena.slots.get(key)
}

/// Calls `HopSlotMap::get_mut`: a mutable reference to the node of a live
/// key, and nothing for any other key. What is written through the reference
/// becomes the node of that key; no other entry changes.
#[verifier::external_body]
pub(crate) fn arena_get_mut(arena: &mut Arena, key: NodeHandle) -> (found: Option<&mut Node>)
    ensures
        found is Some <==> arena_contents(*old(arena)).contains_key(key),
        found matches Some(node) ==> *node == arena_contents(*old(arena))[key]
            && arena_contents(*final(arena)) == arena_contents(*old(arena)).insert(
            key,
            *final(node),
        ),
        found is None ==> arena_contents(*final(arena)) == arena_contents(*old(arena)),
{
    arena.slots.get_mut(key)
}

/// Calls `HopSlotMap::keys` and collects what it yields: each live key once,
/// in an order that the map does not promise.
#[verifier::external_body]
pub(crate) fn arena_keys(arena: &Arena) -> (keys: Vec<NodeHandle>)
    ensures
        keys@.no_duplicates(),
        keys@.to_set() == arena_contents(*arena).dom(),
{
    arena.slots.keys().collect()
}

/// Compares two keys with their `==`, which compares index and version.
#[verifier::external_body]
pub(crate) fn handle_eq(a: NodeHandle, b: NodeHandle) -> (same: bool)
    ensures
        same == (a == b),
{
    a == b
}

} // verus!
