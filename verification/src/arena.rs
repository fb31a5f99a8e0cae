//! Trusted boundary to `slab`: the index-addressed pool that owns the search
//! nodes. The pool's contents are modelled as a finite map from keys to
//! nodes; each wrapper states over that map what the corresponding `slab`
//! method does, as its source shows.

use vstd::prelude::*;

use crate::game::Node;

verus! {

/// Declares `slab::Slab` so its values can stand in signatures and fields.
#[verifier::external_type_specification]
#[verifier::external_body]
#[verifier::reject_recursive_types(T)]
pub struct ExSlab<T>(slab::Slab<T>);

/// The occupied entries of the pool: which key holds which node.
pub uninterp spec fn arena_view(s: &slab::Slab<Node>) -> Map<int, Node>;

/// Relies on `slab::Slab::new`: a new pool has no entries.
#[verifier::external_body]
pub fn arena_new() -> (s: slab::Slab<Node>)
    ensures
        forall|k: int| !arena_view(&s).dom().contains(k),
{
    slab::Slab::new()
}

/// Relies on `slab::Slab::insert`: the value is stored at a vacant key,
/// which is returned; all other entries are unchanged.
#[verifier::external_body]
pub fn arena_insert(s: &mut slab::Slab<Node>, node: Node) -> (key: usize)
    ensures
        !arena_view(old(s)).dom().contains(key as int),
        arena_view(final(s)) == arena_view(old(s)).insert(key as int, node),
{
    s.insert(node)
}

/// Relies on `slab::Slab::contains`: whether a value is stored at the key.
#[verifier::external_body]
pub fn arena_contains(s: &slab::Slab<Node>, key: usize) -> (r: bool)
    ensures
        r == arena_view(s).dom().contains(key as int),
{
    s.contains(key)
}

/// Relies on `slab::Slab::remove`: the value at the key is taken out and
/// returned; it panics on a vacant key, so the key must be occupied.
#[verifier::external_body]
pub fn arena_remove(s: &mut slab::Slab<Node>, key: usize) -> (node: Node)
    requires
        arena_view(old(s)).dom().contains(key as int),
    ensures
        node == arena_view(old(s))[key as int],
        arena_view(final(s)) == arena_view(old(s)).remove(key as int),
{
    s.remove(key)
}

/// Relies on `slab::Slab::clear`: every entry is dropped.
#[verifier::external_body]
pub fn arena_clear(s: &mut slab::Slab<Node>)
    ensures
        forall|k: int| !arena_view(final(s)).dom().contains(k),
{
    s.clear()
}

/// Relies on the `Index` impl of `slab::Slab`, which panics on a vacant key
/// and otherwise returns the stored value.
#[verifier::external_body]
pub fn arena_get(s: &slab::Slab<Node>, key: usize) -> (node: &Node)
    requires
        arena_view(s).dom().contains(key as int),
    ensures
        *node == arena_view(s)[key as int],
{
    &s[key]
}

/// Relies on the `IndexMut` impl of `slab::Slab`, which panics on a vacant
/// key and otherwise lends out the stored value in place.
#[verifier::external_body]
pub fn arena_get_mut(s: &mut slab::Slab<Node>, key: usize) -> (node: &mut Node)
    requires
        arena_view(old(s)).dom().contains(key as int),
    ensures
        *node == arena_view(old(s))[key as int],
        arena_view(final(s)) == arena_view(old(s)).insert(key as int, *final(node)),
{
    &mut s[key]
}

} // verus!
