//! Laws of the registry, stated and proved over the abstract model.
//!
//! Every executable operation promises that the new state is the image of
//! the old one under a transition function of `model`; these lemmas pin
//! down how those transitions interact. Laws that speak of the registry's
//! internal directory stand as methods on `Registry` instead, beside the
//! state they inspect.

use vstd::prelude::*;

use crate::model::owns_all;
use crate::model::spec_add;
use crate::model::spec_destroy;
use crate::model::spec_get;
use crate::model::spec_replace;

verus! {

/// Uniqueness: for every entity and component type, the state holds at most
/// one value, so two reads of the same pair always agree.
pub proof fn lemma_component_unique<V>(m: Map<u64, Map<u64, V>>, e: u64, t: u64, v1: V, v2: V)
    requires
        spec_get(m, e, t) == Some(v1),
        spec_get(m, e, t) == Some(v2),
    ensures
        v1 == v2,
{
}

/// Add idempotence: a second add of the same component type is always a
/// no-op, and when the entity was live and did not yet own the type, the
/// value that stays is the first one, not the second.
pub proof fn lemma_add_idempotent<V>(m: Map<u64, Map<u64, V>>, e: u64, t: u64, v1: V, v2: V)
    ensures
        spec_add(spec_add(m, e, t, v1), e, t, v2) == spec_add(m, e, t, v1),
        m.contains_key(e) && !m[e].contains_key(t) ==> spec_get(
            spec_add(spec_add(m, e, t, v1), e, t, v2),
            e,
            t,
        ) == Some(v1),
{
    let m1 = spec_add(m, e, t, v1);
    if m.contains_key(e) && !m[e].contains_key(t) {
        assert(m1[e].contains_key(t));
    }
}

/// Replace requires presence: a replace on an entity that lacks the type
/// leaves it absent, and a replace on an entity that owns the type stores
/// exactly the new value.
pub proof fn lemma_replace_requires_presence<V>(m: Map<u64, Map<u64, V>>, e: u64, t: u64, v: V)
    ensures
        spec_get(m, e, t) is None ==> spec_get(spec_replace(m, e, t, v), e, t) is None,
        spec_get(m, e, t) is Some ==> spec_get(spec_replace(m, e, t, v), e, t) == Some(v),
{
}

/// Cascade destroy: after an entity is destroyed it is no longer live and
/// owns no component of any type at all.
pub proof fn lemma_destroy_cascades<V>(m: Map<u64, Map<u64, V>>, e: u64, t: u64)
    ensures
        !spec_destroy(m, e).contains_key(e),
        spec_get(spec_destroy(m, e), e, t) is None,
{
}

/// View membership: an entity matches a non-empty type list exactly when a
/// read of every listed type returns a value — the condition under which
/// `view` lists it.
pub proof fn lemma_view_membership<V>(m: Map<u64, Map<u64, V>>, e: u64, tags: Seq<u64>)
    requires
        tags.len() >= 1,
    ensures
        owns_all(m, e, tags) <==> (forall|k: int|
            0 <= k < tags.len() ==> spec_get(m, e, #[trigger] tags[k]) is Some),
{
    if forall|k: int| 0 <= k < tags.len() ==> spec_get(m, e, #[trigger] tags[k]) is Some {
        assert(spec_get(m, e, tags[0]) is Some);
        assert(m.contains_key(e));
        assert forall|k: int| 0 <= k < tags.len() implies m[e].contains_key(tags[k]) by {
            assert(spec_get(m, e, tags[k]) is Some);
        }
    }
}

} // verus!
