//! The abstract model of a registry and the transition each operation makes.
//!
//! A registry state is a map from each live entity to the components it
//! owns, keyed by component type tag. Every executable operation of the
//! registry promises in its contract that the new state is the image of the
//! old one under the matching transition function below.

use vstd::prelude::*;

verus! {

/// The state after an entity `e` is created: `e` is live and owns nothing.
pub open spec fn spec_create<V>(m: Map<u64, Map<u64, V>>, e: u64) -> Map<u64, Map<u64, V>> {
    m.insert(e, Map::empty())
}

/// The state after component `v` of type `t` is added to entity `e`.
/// The addition takes effect only when `e` is live and does not yet own a
/// component of type `t`; otherwise the state is unchanged. In particular a
/// second addition of the same type never overwrites the first value.
pub open spec fn spec_add<V>(m: Map<u64, Map<u64, V>>, e: u64, t: u64, v: V) -> Map<
    u64,
    Map<u64, V>,
> {
    if m.contains_key(e) && !m[e].contains_key(t) {
        m.insert(e, m[e].insert(t, v))
    } else {
        m
    }
}

/// The state after each component of `comps` is added to entity `e` in order.
pub open spec fn spec_add_seq<V>(m: Map<u64, Map<u64, V>>, e: u64, comps: Seq<(u64, V)>) -> Map<
    u64,
    Map<u64, V>,
>
    decreases comps.len(),
{
    if comps.len() == 0 {
        m
    } else {
        spec_add(spec_add_seq(m, e, comps.drop_last()), e, comps.last().0, comps.last().1)
    }
}

/// The state after the component of type `t` is removed from entity `e`.
/// The removal takes effect only when `e` is live and owns a component of
/// type `t`; otherwise the state is unchanged.
pub open spec fn spec_remove<V>(m: Map<u64, Map<u64, V>>, e: u64, t: u64) -> Map<u64, Map<u64, V>> {
    if m.contains_key(e) && m[e].contains_key(t) {
        m.insert(e, m[e].remove(t))
    } else {
        m
    }
}

/// The state after the component of type `t` owned by entity `e` is
/// overwritten with `v`. The overwrite takes effect only when `e` is live
/// and already owns a component of type `t`; otherwise the state is
/// unchanged. In particular a replace never inserts a missing component.
pub open spec fn spec_replace<V>(m: Map<u64, Map<u64, V>>, e: u64, t: u64, v: V) -> Map<
    u64,
    Map<u64, V>,
> {
    if m.contains_key(e) && m[e].contains_key(t) {
        m.insert(e, m[e].insert(t, v))
    } else {
        m
    }
}

/// The state after entity `e` is destroyed: `e` is no longer live and every
/// component it owned is gone with it.
pub open spec fn spec_destroy<V>(m: Map<u64, Map<u64, V>>, e: u64) -> Map<u64, Map<u64, V>> {
    m.remove(e)
}

/// The component of type `t` owned by entity `e`, if `e` is live and owns
/// one.
pub open spec fn spec_get<V>(m: Map<u64, Map<u64, V>>, e: u64, t: u64) -> Option<V> {
    if m.contains_key(e) && m[e].contains_key(t) {
        Some(m[e][t])
    } else {
        None
    }
}

/// Whether entity `e` is live and owns a component of every type in `tags`.
pub open spec fn owns_all<V>(m: Map<u64, Map<u64, V>>, e: u64, tags: Seq<u64>) -> bool {
    m.contains_key(e) && forall|k: int| 0 <= k < tags.len() ==> m[e].contains_key(tags[k])
}

} // verus!
