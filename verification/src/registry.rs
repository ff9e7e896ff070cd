//! The registry: entity records, the pool directory, and every public
//! operation.
//!
//! Each live entity has a record, the list of component type tags it owns;
//! the directory maps each tag with at least one value to the pool holding
//! those values. Well-formedness ties the two together both ways: a tag
//! stands in an entity's record exactly when that entity has an entry in the
//! tag's pool, and a pool stands in the directory exactly when it is
//! non-empty. Every operation's contract is stated over the abstract model,
//! a map from each live entity to the components it owns.

use std::collections::HashMap;
use vstd::prelude::*;

use vstd::pervasive::unreached;

use crate::model::owns_all;
use crate::model::spec_add;
use crate::model::spec_add_seq;
use crate::model::spec_create;
use crate::model::spec_destroy;
use crate::model::spec_get;
use crate::model::spec_remove;
use crate::model::spec_replace;
use crate::pool::Pool;
use crate::seqs::lemma_push_unique;
use crate::seqs::lemma_remove_unique;

verus! {

broadcast use vstd::std_specs::hash::group_hash_axioms;

fn contains_tag(rec: &Vec<u64>, tag: u64) -> (r: bool)
    ensures
        r == rec@.contains(tag),
{
    let mut i: usize = 0;
    while i < rec.len()
        invariant
            i <= rec@.len(),
            forall|j: int| 0 <= j < i ==> rec@[j] != tag,
        decreases rec@.len() - i,
    {
        if rec[i] == tag {
            return true;
        }
        i += 1;
    }
    false
}

fn find_tag(rec: &Vec<u64>, tag: u64) -> (r: Option<usize>)
    ensures
        (match r {
            Some(i) => i < rec@.len() && rec@[i as int] == tag,
            None => !rec@.contains(tag),
        }),
{
    let mut i: usize = 0;
    while i < rec.len()
        invariant
            i <= rec@.len(),
            forall|j: int| 0 <= j < i ==> rec@[j] != tag,
        decreases rec@.len() - i,
    {
        if rec[i] == tag {
            return Some(i);
        }
        i += 1;
    }
    None
}

pub struct Registry<V> {
    next: u64,
    entities: HashMap<u64, Vec<u64>>,
    pools: HashMap<u64, Pool<V>>,
}

impl<V> Registry<V> {
    /// The internal invariant: records and pools agree both ways, a pool is
    /// present exactly while it is non-empty, the null entity is never live,
    /// and every issued identifier is below the counter.
    pub closed spec fn wf(self) -> bool {
        &&& 1 <= self.next
        &&& !self.entities@.contains_key(0)
        &&& forall|e: u64| #[trigger] self.entities@.contains_key(e) ==> e < self.next
        &&& forall|e: u64| #[trigger]
            self.entities@.contains_key(e) ==> self.entities@[e]@.no_duplicates()
        &&& forall|e: u64, t: u64|
            self.entities@.contains_key(e) && #[trigger] self.entities@[e]@.contains(t) ==> {
                &&& self.pools@.contains_key(t)
                &&& self.pools@[t]@.contains_key(e)
            }
        &&& forall|t: u64| #[trigger] self.pools@.contains_key(t) ==> self.pools@[t].wf()
        &&& forall|t: u64| #[trigger]
            self.pools@.contains_key(t) ==> exists|e: u64| self.pools@[t]@.contains_key(e)
        &&& forall|t: u64, e: u64|
            self.pools@.contains_key(t) && #[trigger] self.pools@[t]@.contains_key(e) ==> {
                &&& self.entities@.contains_key(e)
                &&& self.entities@[e]@.contains(t)
            }
    }

    /// The abstract state: each live entity mapped to the components it
    /// owns, keyed by component type tag.
    pub closed spec fn model(self) -> Map<u64, Map<u64, V>> {
        Map::new(
            |e: u64| self.entities@.contains_key(e),
            |e: u64|
                Map::new(
                    |t: u64| self.entities@[e]@.contains(t),
                    |t: u64| self.pools@[t]@[e],
                ),
        )
    }

    /// The identifier the next `create` will issue.
    pub closed spec fn next_id(self) -> u64 {
        self.next
    }

    /// Whether the directory currently holds a pool for tag `t`.
    pub closed spec fn pool_live(self, t: u64) -> bool {
        self.pools@.contains_key(t)
    }

    pub fn new() -> (r: Self)
        ensures
            r.wf(),
            r.model() == Map::<u64, Map<u64, V>>::empty(),
            r.next_id() == 1,
            forall|t: u64| !r.pool_live(t),
    {
        let r = Registry { next: 1u64, entities: HashMap::new(), pools: HashMap::new() };
        proof {
            assert(r.model() =~~= Map::<u64, Map<u64, V>>::empty());
        }
        r
    }

    /// Allocates the next identifier and inserts an empty record for it.
    /// The identifier is fresh: it was never live before, and it is not the
    /// null entity.
    pub fn create(&mut self) -> (e: u64)
        requires
            old(self).wf(),
            old(self).next_id() < u64::MAX,
        ensures
            final(self).wf(),
            e == old(self).next_id(),
            e != 0,
            !old(self).model().contains_key(e),
            final(self).model() == spec_create(old(self).model(), e),
            final(self).next_id() == old(self).next_id() + 1,
            forall|t: u64| final(self).pool_live(t) == old(self).pool_live(t),
    {
        let e = self.next;
        self.next = self.next + 1;
        self.entities.insert(e, Vec::new());
        proof {
            assert forall|x: u64| #[trigger]
                self.model().contains_key(x) implies self.model()[x] == spec_create(
                old(self).model(),
                e,
            )[x] by {
                if x == e {
                    assert(self.model()[e] =~= Map::<u64, V>::empty());
                } else {
                    assert(self.model()[x] =~= old(self).model()[x]);
                }
            }
            assert(self.model() =~~= spec_create(old(self).model(), e));
        }
        e
    }

    /// Creates an entity and attaches each supplied `(tag, value)` pair in
    /// argument order, as one logical operation; it is equivalent to a
    /// `create` followed by one `add` per component. A tag that appears
    /// twice keeps its first value, as under `add`.
    pub fn create_with(&mut self, components: Vec<(u64, V)>) -> (e: u64)
        requires
            old(self).wf(),
            old(self).next_id() < u64::MAX,
        ensures
            final(self).wf(),
            e == old(self).next_id(),
            e != 0,
            !old(self).model().contains_key(e),
            final(self).model() == spec_add_seq(
                spec_create(old(self).model(), e),
                e,
                components@,
            ),
            final(self).next_id() == old(self).next_id() + 1,
    {
        let ghost comps0 = components@;
        let e = self.create();
        let mut rest = components;
        while rest.len() > 0
            invariant
                self.wf(),
                rest@.len() <= comps0.len(),
                rest@ == comps0.subrange(comps0.len() - rest@.len(), comps0.len() as int),
                self.model() == spec_add_seq(
                    spec_create(old(self).model(), e),
                    e,
                    comps0.subrange(0, comps0.len() - rest@.len()),
                ),
                self.next_id() == old(self).next_id() + 1,
            decreases rest@.len(),
        {
            let ghost k = comps0.len() - rest@.len();
            proof {
                assert(rest@[0] == comps0[k]);
            }
            let (t, v) = rest.remove(0);
            self.add(e, t, v);
            proof {
                assert(rest@ =~= comps0.subrange(k + 1, comps0.len() as int));
                let ext = comps0.subrange(0, k + 1);
                assert(ext.drop_last() =~= comps0.subrange(0, k));
                assert(ext.last() == comps0[k]);
                assert(self.model() == spec_add_seq(
                    spec_create(old(self).model(), e),
                    e,
                    ext,
                ));
            }
        }
        proof {
            assert(comps0.subrange(0, comps0.len() as int) =~= comps0);
        }
        e
    }

    /// Whether entity `e` is live.
    pub fn alive(&self, e: u64) -> (r: bool)
        ensures
            r == self.model().contains_key(e),
    {
        self.entities.contains_key(&e)
    }

    /// Attaches `value` as the component of type `tag` of entity `entity`.
    /// The attachment happens only when the entity is live and does not yet
    /// own a component of that type; a second addition of the same type is a
    /// no-op that keeps the first value, and an addition to an entity that
    /// is not live is a no-op as well.
    pub fn add(&mut self, entity: u64, tag: u64, value: V)
        requires
            old(self).wf(),
        ensures
            final(self).wf(),
            final(self).model() == spec_add(old(self).model(), entity, tag, value),
            final(self).next_id() == old(self).next_id(),
    {
        match self.entities.remove(&entity) {
            None => {
                proof {
                    assert(self.entities@ =~= old(self).entities@);
                    assert(self.model() =~~= spec_add(old(self).model(), entity, tag, value));
                }
            },
            Some(mut rec) => {
                let ghost rec0 = rec@;
                if !contains_tag(&rec, tag) {
                    rec.push(tag);
                    let mut pool = match self.pools.remove(&tag) {
                        Some(p) => p,
                        None => Pool::new(),
                    };
                    let ghost pool0 = pool@;
                    pool.put(entity, value);
                    self.pools.insert(tag, pool);
                    self.entities.insert(entity, rec);
                    proof {
                        lemma_push_unique(rec0, tag);
                        let pre = old(self);
                        assert(self.entities@ =~= pre.entities@.insert(entity, rec));
                        if pre.pools@.contains_key(tag) {
                            assert(pool0 == pre.pools@[tag]@);
                        } else {
                            assert(pool0 =~= Map::<u64, V>::empty());
                            assert forall|e2: u64| #[trigger]
                                pool0.contains_key(e2) implies false by {}
                        }
                        // well-formedness of the new state
                        assert forall|e2: u64, t2: u64|
                            self.entities@.contains_key(e2) && #[trigger]
                            self.entities@[e2]@.contains(t2) implies {
                            &&& self.pools@.contains_key(t2)
                            &&& self.pools@[t2]@.contains_key(e2)
                        } by {
                            if e2 == entity {
                                if t2 != tag {
                                    assert(rec0.contains(t2));
                                    assert(pre.entities@[entity]@.contains(t2));
                                }
                            } else {
                                assert(pre.entities@[e2]@.contains(t2));
                            }
                        }
                        assert forall|t2: u64| #[trigger]
                            self.pools@.contains_key(t2) implies exists|e2: u64|
                            self.pools@[t2]@.contains_key(e2) by {
                            if t2 == tag {
                                assert(self.pools@[tag]@.contains_key(entity));
                            } else {
                                assert(pre.pools@.contains_key(t2));
                                let e2 = choose|e2: u64| pre.pools@[t2]@.contains_key(e2);
                                assert(self.pools@[t2]@.contains_key(e2));
                            }
                        }
                        assert forall|t2: u64, e2: u64|
                            self.pools@.contains_key(t2) && #[trigger]
                            self.pools@[t2]@.contains_key(e2) implies {
                            &&& self.entities@.contains_key(e2)
                            &&& self.entities@[e2]@.contains(t2)
                        } by {
                            if t2 == tag {
                                if e2 != entity {
                                    assert(pool0.contains_key(e2));
                                    assert(pre.pools@.contains_key(tag));
                                    assert(pre.entities@[e2]@.contains(tag));
                                }
                            } else {
                                assert(pre.pools@[t2]@.contains_key(e2));
                            }
                        }
                        assert(self.wf());
                        // the model moves by exactly one component insertion
                        let m0 = pre.model();
                        let m1 = self.model();
                        assert(!m0[entity].contains_key(tag));
                        assert forall|x: u64| #[trigger] m1.contains_key(x) implies m1[x] == m0.insert(
                            entity,
                            m0[entity].insert(tag, value),
                        )[x] by {
                            if x == entity {
                                assert forall|t2: u64| #[trigger]
                                    m1[entity].contains_key(t2) implies m1[entity][t2] == m0[entity].insert(
                                    tag,
                                    value,
                                )[t2] by {
                                    if t2 != tag {
                                        assert(rec0.contains(t2));
                                        assert(pre.entities@[entity]@.contains(t2));
                                        assert(pre.pools@[t2]@[entity] == self.pools@[t2]@[entity]);
                                    }
                                }
                                assert(m1[entity] =~= m0[entity].insert(tag, value));
                            } else {
                                assert forall|t2: u64| #[trigger]
                                    m1[x].contains_key(t2) implies m1[x][t2] == m0[x][t2] by {
                                    assert(pre.entities@[x]@.contains(t2));
                                    if t2 == tag {
                                        assert(pre.pools@[tag]@.contains_key(x));
                                        assert(pool0.contains_key(x));
                                        assert(self.pools@[tag]@[x] == pool0[x]);
                                    }
                                }
                                assert(m1[x] =~= m0[x]);
                            }
                        }
                        assert(m1 =~~= spec_add(m0, entity, tag, value));
                    }
                } else {
                    self.entities.insert(entity, rec);
                    proof {
                        assert(self.entities@ =~= old(self).entities@);
                        assert(old(self).model()[entity].contains_key(tag));
                        assert(self.model() =~~= spec_add(old(self).model(), entity, tag, value));
                    }
                }
            },
        }
    }

    /// Detaches the component of type `tag` from entity `entity` and drops
    /// the tag's pool when the entry was its last one. A removal from an
    /// entity that is not live or does not own the type is a no-op.
    pub fn remove(&mut self, entity: u64, tag: u64)
        requires
            old(self).wf(),
        ensures
            final(self).wf(),
            final(self).model() == spec_remove(old(self).model(), entity, tag),
            final(self).next_id() == old(self).next_id(),
    {
        match self.entities.remove(&entity) {
            None => {
                proof {
                    assert(self.entities@ =~= old(self).entities@);
                    assert(self.model() =~~= spec_remove(old(self).model(), entity, tag));
                }
            },
            Some(mut rec) => {
                let ghost rec0 = rec@;
                match find_tag(&rec, tag) {
                    None => {
                        self.entities.insert(entity, rec);
                        proof {
                            assert(self.entities@ =~= old(self).entities@);
                            assert(!old(self).model()[entity].contains_key(tag));
                            assert(self.model() =~~= spec_remove(old(self).model(), entity, tag));
                        }
                    },
                    Some(idx) => {
                        rec.remove(idx);
                        proof {
                            assert(rec0.contains(tag));
                            assert(old(self).entities@[entity]@.contains(tag));
                        }
                        let mut pool = match self.pools.remove(&tag) {
                            Some(p) => p,
                            None => unreached(),
                        };
                        let ghost pool0 = pool@;
                        pool.take(entity);
                        let dropped = pool.is_empty();
                        if !dropped {
                            self.pools.insert(tag, pool);
                        }
                        self.entities.insert(entity, rec);
                        proof {
                            lemma_remove_unique(rec0, idx as int);
                            let pre = old(self);
                            assert(self.entities@ =~= pre.entities@.insert(entity, rec));
                            assert(pool@ == pool0.remove(entity));
                            if dropped {
                                assert(self.pools@ =~= pre.pools@.remove(tag));
                            } else {
                                assert(self.pools@ =~= pre.pools@.insert(tag, pool));
                            }
                            // well-formedness of the new state
                            assert forall|e2: u64, t2: u64|
                                self.entities@.contains_key(e2) && #[trigger]
                                self.entities@[e2]@.contains(t2) implies {
                                &&& self.pools@.contains_key(t2)
                                &&& self.pools@[t2]@.contains_key(e2)
                            } by {
                                if e2 == entity {
                                    assert(rec0.contains(t2) && t2 != tag);
                                    assert(pre.entities@[entity]@.contains(t2));
                                } else {
                                    assert(pre.entities@[e2]@.contains(t2));
                                    if t2 == tag {
                                        assert(pre.pools@[tag]@.contains_key(e2));
                                        assert(pool0.contains_key(e2));
                                        assert(pool@.contains_key(e2));
                                        assert(!dropped) by {
                                            if dropped {
                                                assert(pool@ == Map::<u64, V>::empty());
                                            }
                                        }
                                    }
                                }
                            }
                            assert forall|t2: u64| #[trigger]
                                self.pools@.contains_key(t2) implies exists|e2: u64|
                                self.pools@[t2]@.contains_key(e2) by {
                                if t2 == tag {
                                    if !(exists|e2: u64| self.pools@[tag]@.contains_key(e2)) {
                                        assert(self.pools@[tag] == pool);
                                        assert(forall|e2: u64|
                                            !(#[trigger] self.pools@[tag]@.contains_key(e2)));
                                        assert(pool@ =~= Map::<u64, V>::empty());
                                        assert(false);
                                    }
                                } else {
                                    let e2 = choose|e2: u64| pre.pools@[t2]@.contains_key(e2);
                                    assert(self.pools@[t2]@.contains_key(e2));
                                }
                            }
                            assert forall|t2: u64, e2: u64|
                                self.pools@.contains_key(t2) && #[trigger]
                                self.pools@[t2]@.contains_key(e2) implies {
                                &&& self.entities@.contains_key(e2)
                                &&& self.entities@[e2]@.contains(t2)
                            } by {
                                if t2 == tag {
                                    assert(pool0.contains_key(e2) && e2 != entity);
                                    assert(pre.entities@[e2]@.contains(tag));
                                } else {
                                    assert(pre.pools@[t2]@.contains_key(e2));
                                    if e2 == entity {
                                        assert(pre.entities@[entity]@.contains(t2));
                                        assert(rec0.contains(t2));
                                    }
                                }
                            }
                            assert(self.wf());
                            // the model moves by exactly one component removal
                            let m0 = pre.model();
                            let m1 = self.model();
                            assert(m0[entity].contains_key(tag));
                            assert forall|x: u64| #[trigger] m1.contains_key(x) implies m1[x]
                                == m0.insert(entity, m0[entity].remove(tag))[x] by {
                                if x == entity {
                                    assert forall|t2: u64| #[trigger]
                                        m1[entity].contains_key(t2) implies m1[entity][t2]
                                        == m0[entity].remove(tag)[t2] by {
                                        assert(rec0.contains(t2) && t2 != tag);
                                        assert(pre.entities@[entity]@.contains(t2));
                                        assert(pre.pools@[t2]@[entity] == self.pools@[t2]@[entity]);
                                    }
                                    assert(m1[entity] =~= m0[entity].remove(tag));
                                } else {
                                    assert forall|t2: u64| #[trigger]
                                        m1[x].contains_key(t2) implies m1[x][t2] == m0[x][t2] by {
                                        assert(pre.entities@[x]@.contains(t2));
                                        if t2 == tag {
                                            assert(pre.pools@[tag]@.contains_key(x));
                                            assert(pool0.contains_key(x));
                                            assert(self.pools@[tag]@[x] == pool0[x]);
                                        }
                                    }
                                    assert(m1[x] =~= m0[x]);
                                }
                            }
                            assert(m1 =~~= spec_remove(m0, entity, tag));
                        }
                    },
                }
            },
        }
    }

    /// During a destroy, whether the pool directory entry for tag `t` is
    /// still exactly as it was in the starting state `pre`.
    spec fn pools_untouched(pre: Self, cur: Self, t: u64) -> bool {
        &&& cur.pools@.contains_key(t) == pre.pools@.contains_key(t)
        &&& cur.pools@.contains_key(t) ==> cur.pools@[t] == pre.pools@[t]
    }

    /// During a destroy of `entity`, whether the pool for tag `t` has had
    /// `entity`'s entry removed, the pool itself being dropped when that
    /// entry was its last one.
    spec fn pool_cleared(pre: Self, cur: Self, entity: u64, t: u64) -> bool {
        let reduced = pre.pools@[t]@.remove(entity);
        if exists|e2: u64| reduced.contains_key(e2) {
            &&& cur.pools@.contains_key(t)
            &&& cur.pools@[t].wf()
            &&& cur.pools@[t]@ == reduced
        } else {
            !cur.pools@.contains_key(t)
        }
    }

    /// Destroys entity `entity`: removes its entry from every pool it was
    /// registered in, drops each pool that becomes empty, and removes the
    /// entity's record. Destroying an entity that is not live is a no-op.
    pub fn destroy(&mut self, entity: u64)
        requires
            old(self).wf(),
        ensures
            final(self).wf(),
            final(self).model() == spec_destroy(old(self).model(), entity),
            final(self).next_id() == old(self).next_id(),
    {
        match self.entities.remove(&entity) {
            None => {
                proof {
                    assert(self.entities@ =~= old(self).entities@);
                    assert(self.model() =~~= spec_destroy(old(self).model(), entity));
                }
            },
            Some(rec) => {
                let mut i: usize = 0;
                while i < rec.len()
                    invariant
                        old(self).wf(),
                        old(self).entities@.contains_key(entity),
                        rec@ == old(self).entities@[entity]@,
                        i <= rec@.len(),
                        self.next == old(self).next,
                        self.entities@ == old(self).entities@.remove(entity),
                        forall|t2: u64|
                            !rec@.subrange(0, i as int).contains(t2) ==> #[trigger] Self::pools_untouched(
                                *old(self),
                                *self,
                                t2,
                            ),
                        forall|t2: u64|
                            rec@.subrange(0, i as int).contains(t2) ==> #[trigger] Self::pool_cleared(
                                *old(self),
                                *self,
                                entity,
                                t2,
                            ),
                    decreases rec@.len() - i,
                {
                    let t = rec[i];
                    proof {
                        assert(rec@.no_duplicates());
                        assert(!rec@.subrange(0, i as int).contains(t)) by {
                            if rec@.subrange(0, i as int).contains(t) {
                                let j = choose|j: int|
                                    0 <= j < i && rec@.subrange(0, i as int)[j] == t;
                                assert(rec@[j] == rec@[i as int]);
                            }
                        }
                        assert(Self::pools_untouched(*old(self), *self, t));
                        assert(rec@.contains(rec@[i as int]));
                        assert(old(self).entities@[entity]@.contains(t));
                        assert(self.pools@.contains_key(t));
                    }
                    let ghost prev = *self;
                    let mut pool = match self.pools.remove(&t) {
                        Some(p) => p,
                        None => unreached(),
                    };
                    let ghost pool0 = pool@;
                    pool.take(entity);
                    let dropped = pool.is_empty();
                    if !dropped {
                        self.pools.insert(t, pool);
                    }
                    proof {
                        assert(pool0 == old(self).pools@[t]@);
                        let reduced = old(self).pools@[t]@.remove(entity);
                        assert(pool@ == reduced);
                        if dropped {
                            assert(self.pools@ =~= prev.pools@.remove(t));
                            assert forall|e2: u64| !(#[trigger] reduced.contains_key(e2)) by {}
                        } else {
                            assert(self.pools@ =~= prev.pools@.insert(t, pool));
                            if !(exists|e2: u64| reduced.contains_key(e2)) {
                                assert(self.pools@[t] == pool);
                                assert(forall|e2: u64|
                                    !(#[trigger] self.pools@[t]@.contains_key(e2)));
                                assert(pool@ =~= Map::<u64, V>::empty());
                                assert(false);
                            }
                            assert(Self::pool_cleared(*old(self), *self, entity, t));
                        }
                        crate::seqs::lemma_prefix_extend(rec@, i as int);
                        assert forall|t2: u64|
                            !rec@.subrange(0, i + 1 as int).contains(t2) implies #[trigger] Self::pools_untouched(
                            *old(self),
                            *self,
                            t2,
                        ) by {
                            assert(!rec@.subrange(0, i as int).contains(t2) && t2 != t);
                            assert(Self::pools_untouched(*old(self), prev, t2));
                        }
                        assert forall|t2: u64|
                            rec@.subrange(0, i + 1 as int).contains(t2) implies #[trigger] Self::pool_cleared(
                            *old(self),
                            *self,
                            entity,
                            t2,
                        ) by {
                            if t2 != t {
                                assert(rec@.subrange(0, i as int).contains(t2));
                                assert(Self::pool_cleared(*old(self), prev, entity, t2));
                            }
                        }
                    }
                    i += 1;
                }
                proof {
                    assert(rec@.subrange(0, rec@.len() as int) =~= rec@);
                    let pre = *old(self);
                    // well-formedness of the final state
                    assert forall|e2: u64, t2: u64|
                        self.entities@.contains_key(e2) && #[trigger]
                        self.entities@[e2]@.contains(t2) implies {
                        &&& self.pools@.contains_key(t2)
                        &&& self.pools@[t2]@.contains_key(e2)
                    } by {
                        assert(pre.entities@[e2]@.contains(t2));
                        assert(pre.pools@[t2]@.contains_key(e2));
                        if rec@.contains(t2) {
                            assert(Self::pool_cleared(pre, *self, entity, t2));
                            let reduced = pre.pools@[t2]@.remove(entity);
                            assert(reduced.contains_key(e2));
                        } else {
                            assert(Self::pools_untouched(pre, *self, t2));
                        }
                    }
                    assert forall|t2: u64| #[trigger] self.pools@.contains_key(t2) implies
                        self.pools@[t2].wf() by {
                        if rec@.contains(t2) {
                            assert(Self::pool_cleared(pre, *self, entity, t2));
                        } else {
                            assert(Self::pools_untouched(pre, *self, t2));
                        }
                    }
                    assert forall|t2: u64| #[trigger] self.pools@.contains_key(t2) implies exists|
                        e2: u64,
                    |
                        self.pools@[t2]@.contains_key(e2) by {
                        if rec@.contains(t2) {
                            assert(Self::pool_cleared(pre, *self, entity, t2));
                            let reduced = pre.pools@[t2]@.remove(entity);
                            let e2 = choose|e2: u64| reduced.contains_key(e2);
                            assert(self.pools@[t2]@.contains_key(e2));
                        } else {
                            assert(Self::pools_untouched(pre, *self, t2));
                            let e2 = choose|e2: u64| pre.pools@[t2]@.contains_key(e2);
                            assert(self.pools@[t2]@.contains_key(e2));
                        }
                    }
                    assert forall|t2: u64, e2: u64|
                        self.pools@.contains_key(t2) && #[trigger]
                        self.pools@[t2]@.contains_key(e2) implies {
                        &&& self.entities@.contains_key(e2)
                        &&& self.entities@[e2]@.contains(t2)
                    } by {
                        if rec@.contains(t2) {
                            assert(Self::pool_cleared(pre, *self, entity, t2));
                            let reduced = pre.pools@[t2]@.remove(entity);
                            assert(reduced.contains_key(e2));
                            assert(pre.pools@[t2]@.contains_key(e2) && e2 != entity);
                        } else {
                            assert(Self::pools_untouched(pre, *self, t2));
                            assert(pre.pools@[t2]@.contains_key(e2));
                            assert(pre.entities@[e2]@.contains(t2));
                            assert(e2 != entity) by {
                                if e2 == entity {
                                    assert(rec@.contains(t2));
                                }
                            }
                        }
                    }
                    assert(self.wf());
                    // the model loses exactly the destroyed entity
                    let m0 = pre.model();
                    let m1 = self.model();
                    assert forall|x: u64| #[trigger] m1.contains_key(x) implies m1[x] == m0.remove(
                        entity,
                    )[x] by {
                        assert forall|t2: u64| #[trigger] m1[x].contains_key(t2) implies m1[x][t2]
                            == m0[x][t2] by {
                            assert(pre.entities@[x]@.contains(t2));
                            assert(pre.pools@[t2]@.contains_key(x));
                            if rec@.contains(t2) {
                                assert(Self::pool_cleared(pre, *self, entity, t2));
                                let reduced = pre.pools@[t2]@.remove(entity);
                                assert(reduced.contains_key(x));
                                assert(self.pools@[t2]@[x] == pre.pools@[t2]@[x]);
                            } else {
                                assert(Self::pools_untouched(pre, *self, t2));
                            }
                        }
                        assert(m1[x] =~= m0[x]);
                    }
                    assert(m1 =~~= spec_destroy(m0, entity));
                }
            },
        }
    }

    /// Applies `f` in place to the component of type `tag` owned by entity
    /// `entity`, the sole entry point for in-place edits and the natural
    /// hook point for a future change-notification mechanism. When the
    /// entity owns no such component, nothing happens and `f` is not
    /// called.
    pub fn patch<F: FnOnce(V) -> V>(&mut self, entity: u64, tag: u64, f: F)
        requires
            old(self).wf(),
            spec_get(old(self).model(), entity, tag) matches Some(cur) ==> call_requires(
                f,
                (cur,),
            ),
        ensures
            final(self).wf(),
            final(self).next_id() == old(self).next_id(),
            (match spec_get(old(self).model(), entity, tag) {
                Some(cur) => exists|r: V| #[trigger]
                    call_ensures(f, (cur,), r) && final(self).model() == spec_replace(
                        old(self).model(),
                        entity,
                        tag,
                        r,
                    ),
                None => final(self).model() == old(self).model(),
            }),
    {
        match self.pools.remove(&tag) {
            None => {
                proof {
                    assert(self.pools@ =~= old(self).pools@);
                    if old(self).model().contains_key(entity) && old(
                        self,
                    ).model()[entity].contains_key(tag) {
                        assert(old(self).entities@[entity]@.contains(tag));
                    }
                    assert(self.wf());
                    assert(self.model() =~~= old(self).model());
                }
            },
            Some(mut pool) => {
                let ghost pool0 = pool@;
                match pool.take(entity) {
                    None => {
                        self.pools.insert(tag, pool);
                        proof {
                            let pre = *old(self);
                            assert(pool@ =~= pool0);
                            assert(self.pools@ =~= pre.pools@.insert(tag, pool));
                            if pre.model().contains_key(entity)
                                && pre.model()[entity].contains_key(tag) {
                                assert(pre.entities@[entity]@.contains(tag));
                            }
                            self.lemma_same_views(pre);
                            assert(self.model() =~~= pre.model());
                        }
                    },
                    Some(cur) => {
                        proof {
                            assert(pool0.contains_key(entity));
                            assert(old(self).entities@[entity]@.contains(tag));
                            assert(old(self).model()[entity][tag] == cur);
                            assert(spec_get(old(self).model(), entity, tag) == Some(cur));
                        }
                        let newv = f(cur);
                        pool.put(entity, newv);
                        self.pools.insert(tag, pool);
                        proof {
                            let pre = *old(self);
                            assert(pool@ =~= pool0.insert(entity, newv));
                            assert(self.pools@ =~= pre.pools@.insert(tag, pool));
                            // well-formedness: no pool gains or loses a key
                            assert forall|e2: u64, t2: u64|
                                self.entities@.contains_key(e2) && #[trigger]
                                self.entities@[e2]@.contains(t2) implies {
                                &&& self.pools@.contains_key(t2)
                                &&& self.pools@[t2]@.contains_key(e2)
                            } by {
                                assert(pre.pools@[t2]@.contains_key(e2));
                            }
                            assert forall|t2: u64| #[trigger]
                                self.pools@.contains_key(t2) implies exists|e2: u64|
                                self.pools@[t2]@.contains_key(e2) by {
                                if t2 == tag {
                                    assert(self.pools@[tag]@.contains_key(entity));
                                } else {
                                    let e2 = choose|e2: u64| pre.pools@[t2]@.contains_key(e2);
                                    assert(self.pools@[t2]@.contains_key(e2));
                                }
                            }
                            assert forall|t2: u64, e2: u64|
                                self.pools@.contains_key(t2) && #[trigger]
                                self.pools@[t2]@.contains_key(e2) implies {
                                &&& self.entities@.contains_key(e2)
                                &&& self.entities@[e2]@.contains(t2)
                            } by {
                                assert(pre.pools@[t2]@.contains_key(e2));
                            }
                            assert(self.wf());
                            // the model moves by exactly one overwrite
                            let m0 = pre.model();
                            let m1 = self.model();
                            assert forall|x: u64| #[trigger] m1.contains_key(x) implies m1[x]
                                == m0.insert(entity, m0[entity].insert(tag, newv))[x] by {
                                if x == entity {
                                    assert forall|t2: u64| #[trigger]
                                        m1[entity].contains_key(t2) implies m1[entity][t2]
                                        == m0[entity].insert(tag, newv)[t2] by {}
                                    assert(m1[entity] =~= m0[entity].insert(tag, newv));
                                } else {
                                    assert forall|t2: u64| #[trigger]
                                        m1[x].contains_key(t2) implies m1[x][t2] == m0[x][t2] by {
                                        if t2 == tag {
                                            assert(pre.pools@[tag]@.contains_key(x));
                                            assert(self.pools@[tag]@[x] == pool0[x]);
                                        }
                                    }
                                    assert(m1[x] =~= m0[x]);
                                }
                            }
                            assert(m1 =~~= spec_replace(m0, entity, tag, newv));
                            assert(call_ensures(f, (cur,), newv) && self.model() == spec_replace(
                                pre.model(),
                                entity,
                                tag,
                                newv,
                            ));
                        }
                    },
                }
            },
        }
    }

    /// The two states have equal entity tables and pointwise equal pool
    /// views, so they are well-formed together and share one model.
    proof fn lemma_same_views(self, other: Self)
        requires
            other.wf(),
            self.next == other.next,
            self.entities@ == other.entities@,
            self.pools@.dom() == other.pools@.dom(),
            forall|t: u64| #[trigger]
                self.pools@.contains_key(t) ==> self.pools@[t]@ == other.pools@[t]@
                    && self.pools@[t].wf(),
        ensures
            self.wf(),
            self.model() == other.model(),
    {
        assert forall|e2: u64, t2: u64|
            self.entities@.contains_key(e2) && #[trigger]
            self.entities@[e2]@.contains(t2) implies {
            &&& self.pools@.contains_key(t2)
            &&& self.pools@[t2]@.contains_key(e2)
        } by {
            assert(other.pools@.contains_key(t2));
            assert(other.pools@[t2]@.contains_key(e2));
        }
        assert forall|t2: u64| #[trigger] self.pools@.contains_key(t2) implies exists|e2: u64|
            self.pools@[t2]@.contains_key(e2) by {
            assert(other.pools@.contains_key(t2));
            let e2 = choose|e2: u64| other.pools@[t2]@.contains_key(e2);
            assert(self.pools@[t2]@.contains_key(e2));
        }
        assert forall|t2: u64, e2: u64|
            self.pools@.contains_key(t2) && #[trigger]
            self.pools@[t2]@.contains_key(e2) implies {
            &&& self.entities@.contains_key(e2)
            &&& self.entities@[e2]@.contains(t2)
        } by {
            assert(other.pools@.contains_key(t2));
            assert(other.pools@[t2]@.contains_key(e2));
        }
        assert(self.wf());
        assert forall|x: u64| #[trigger] self.model().contains_key(x) implies self.model()[x]
            == other.model()[x] by {
            assert forall|t2: u64| #[trigger]
                self.model()[x].contains_key(t2) implies self.model()[x][t2]
                == other.model()[x][t2] by {
                assert(self.entities@[x]@.contains(t2));
                assert(other.pools@.contains_key(t2));
            }
            assert(self.model()[x] =~= other.model()[x]);
        }
        assert(self.model() =~~= other.model());
    }

    /// Overwrites the component of type `tag` owned by entity `entity` with
    /// `value`, if and only if the entity already owns one; a replace never
    /// inserts a missing component.
    pub fn replace(&mut self, entity: u64, tag: u64, value: V)
        requires
            old(self).wf(),
        ensures
            final(self).wf(),
            final(self).model() == spec_replace(old(self).model(), entity, tag, value),
            final(self).next_id() == old(self).next_id(),
    {
        let f = (move |_cur: V| -> (r: V)
            ensures
                r == value,
            { value });
        self.patch(entity, tag, f);
        proof {
            match spec_get(old(self).model(), entity, tag) {
                Some(cur) => {
                    let r = choose|r: V| #[trigger]
                        call_ensures(f, (cur,), r) && self.model() == spec_replace(
                            old(self).model(),
                            entity,
                            tag,
                            r,
                        );
                    assert(r == value);
                },
                None => {},
            }
        }
    }

    /// The component of type `tag` owned by entity `entity`, if any.
    pub fn get(&self, entity: u64, tag: u64) -> (r: Option<&V>)
        requires
            self.wf(),
        ensures
            (match r {
                Some(v) => spec_get(self.model(), entity, tag) == Some(*v),
                None => spec_get(self.model(), entity, tag) is None,
            }),
    {
        match self.pools.get(&tag) {
            None => None,
            Some(pool) => {
                let r = pool.get(entity);
                proof {
                    if pool@.contains_key(entity) {
                        assert(self.entities@[entity]@.contains(tag));
                        assert(self.model().contains_key(entity));
                        assert(self.model()[entity].contains_key(tag));
                        assert(self.model()[entity][tag] == pool@[entity]);
                    } else {
                        if self.model().contains_key(entity) && self.model()[entity].contains_key(
                            tag,
                        ) {
                            assert(self.entities@[entity]@.contains(tag));
                        }
                    }
                }
                r
            },
        }
    }
}

impl<V> Registry<V> {
    /// Pool garbage collection: the directory holds a pool for a type
    /// exactly while some live entity owns a component of that type, so
    /// removing the last holder leaves no stale pool behind.
    pub proof fn lemma_pool_gc(self, t: u64)
        requires
            self.wf(),
        ensures
            self.pool_live(t) <==> (exists|e: u64|
                #[trigger] self.model().contains_key(e) && self.model()[e].contains_key(t)),
    {
        if self.pool_live(t) {
            let e = choose|e: u64| self.pools@[t]@.contains_key(e);
            assert(self.entities@.contains_key(e) && self.entities@[e]@.contains(t));
            assert(self.model().contains_key(e) && self.model()[e].contains_key(t));
        }
        if exists|e: u64| #[trigger] self.model().contains_key(e) && self.model()[e].contains_key(
            t,
        ) {
            let e = choose|e: u64|
                #[trigger] self.model().contains_key(e) && self.model()[e].contains_key(t);
            assert(self.entities@[e]@.contains(t));
            assert(self.pools@.contains_key(t));
        }
    }

    /// Null entity: the reserved identifier is never live, whatever
    /// sequence of operations produced the state.
    pub proof fn lemma_null_entity(self)
        requires
            self.wf(),
        ensures
            !self.model().contains_key(0),
    {
    }

    /// Identifiers are never reused: every identifier the counter has not
    /// yet issued, the current state does not hold.
    pub proof fn lemma_ids_fresh(self)
        requires
            self.wf(),
        ensures
            forall|e: u64| self.next_id() <= e ==> !(#[trigger] self.model().contains_key(e)),
    {
    }
}

impl<V: Copy> Registry<V> {
    /// Looks up each tag of `tags` independently for entity `entity`; each
    /// slot of the result is present or absent on its own.
    pub fn get_all(&self, entity: u64, tags: &Vec<u64>) -> (r: Vec<Option<V>>)
        requires
            self.wf(),
        ensures
            r@.len() == tags@.len(),
            forall|k: int|
                0 <= k < tags@.len() ==> r@[k] == spec_get(self.model(), entity, tags@[k]),
    {
        let mut out: Vec<Option<V>> = Vec::new();
        let mut i: usize = 0;
        while i < tags.len()
            invariant
                self.wf(),
                i <= tags@.len(),
                out@.len() == i,
                forall|k: int|
                    0 <= k < i ==> out@[k] == spec_get(self.model(), entity, tags@[k]),
            decreases tags@.len() - i,
        {
            match self.get(entity, tags[i]) {
                None => out.push(None),
                Some(v) => out.push(Some(*v)),
            }
            i += 1;
        }
        out
    }

    /// One row of a view: the components of every type in `tags` owned by
    /// the live entity `entity`, or nothing when some type is missing.
    fn fetch_row(&self, entity: u64, tags: &Vec<u64>) -> (r: Option<Vec<V>>)
        requires
            self.wf(),
            self.model().contains_key(entity),
        ensures
            (match r {
                Some(vals) => {
                    &&& owns_all(self.model(), entity, tags@)
                    &&& vals@.len() == tags@.len()
                    &&& forall|k: int|
                        0 <= k < tags@.len() ==> vals@[k] == self.model()[entity][tags@[k]]
                },
                None => !owns_all(self.model(), entity, tags@),
            }),
    {
        let mut vals: Vec<V> = Vec::new();
        let mut i: usize = 0;
        while i < tags.len()
            invariant
                self.wf(),
                self.model().contains_key(entity),
                i <= tags@.len(),
                vals@.len() == i,
                forall|k: int|
                    0 <= k < i ==> self.model()[entity].contains_key(#[trigger] tags@[k]),
                forall|k: int|
                    0 <= k < i ==> vals@[k] == self.model()[entity][#[trigger] tags@[k]],
            decreases tags@.len() - i,
        {
            match self.get(entity, tags[i]) {
                None => {
                    proof {
                        assert(!self.model()[entity].contains_key(tags@[i as int]));
                    }
                    return None;
                },
                Some(v) => {
                    vals.push(*v);
                    proof {
                        assert(self.model()[entity].contains_key(tags@[i as int]));
                        assert(vals@[i as int] == self.model()[entity][tags@[i as int]]);
                    }
                },
            }
            i += 1;
        }
        proof {
            assert(owns_all(self.model(), entity, tags@));
        }
        Some(vals)
    }

    /// Every entity that owns a component of every type in `tags`, paired
    /// with a copy of each of those components in tag order. The result is
    /// a materialized snapshot driven by the first tag's pool: its rows
    /// list each matching entity exactly once, in that pool's own order,
    /// and later mutation of the registry does not touch it.
    pub fn view(&self, tags: &Vec<u64>) -> (r: Vec<(u64, Vec<V>)>)
        requires
            self.wf(),
            tags@.len() >= 1,
        ensures
            forall|a: int, b: int| 0 <= a < b < r@.len() ==> r@[a].0 != r@[b].0,
            forall|a: int| 0 <= a < r@.len() ==> owns_all(self.model(), #[trigger] r@[a].0, tags@),
            forall|a: int| 0 <= a < r@.len() ==> (#[trigger] r@[a].1)@.len() == tags@.len(),
            forall|a: int, k: int|
                0 <= a < r@.len() && 0 <= k < tags@.len() ==> (#[trigger] r@[a].1@[k])
                    == self.model()[r@[a].0][tags@[k]],
            forall|e: u64|
                owns_all(self.model(), e, tags@) ==> exists|a: int|
                    0 <= a < r@.len() && (#[trigger] r@[a].0) == e,
    {
        let mut out: Vec<(u64, Vec<V>)> = Vec::new();
        let first = match self.pools.get(&tags[0]) {
            None => {
                proof {
                    assert forall|e: u64| !owns_all(self.model(), e, tags@) by {
                        if owns_all(self.model(), e, tags@) {
                            assert(self.model()[e].contains_key(tags@[0]));
                            assert(self.entities@[e]@.contains(tags@[0]));
                        }
                    }
                }
                return out;
            },
            Some(p) => p,
        };
        let ghost pool0 = first@;
        proof {
            assert(self.pools@.contains_key(tags@[0]) && self.pools@[tags@[0]] == *first);
        }
        let keys = first.entities();
        let ghost ks = keys@;
        let mut i: usize = 0;
        while i < keys.len()
            invariant
                self.wf(),
                tags@.len() >= 1,
                keys@ == ks,
                ks.no_duplicates(),
                self.pools@.contains_key(tags@[0]),
                self.pools@[tags@[0]]@ == pool0,
                forall|e: u64| #[trigger] ks.contains(e) <==> pool0.contains_key(e),
                i <= ks.len(),
                forall|a: int, b: int| 0 <= a < b < out@.len() ==> out@[a].0 != out@[b].0,
                forall|a: int|
                    0 <= a < out@.len() ==> owns_all(self.model(), #[trigger] out@[a].0, tags@),
                forall|a: int|
                    0 <= a < out@.len() ==> ks.subrange(0, i as int).contains(
                        #[trigger] out@[a].0,
                    ),
                forall|a: int|
                    0 <= a < out@.len() ==> (#[trigger] out@[a].1)@.len() == tags@.len(),
                forall|a: int, k: int|
                    0 <= a < out@.len() && 0 <= k < tags@.len() ==> (#[trigger] out@[a].1@[k])
                        == self.model()[out@[a].0][tags@[k]],
                forall|e: u64|
                    ks.subrange(0, i as int).contains(e) && owns_all(self.model(), e, tags@)
                        ==> exists|a: int| 0 <= a < out@.len() && (#[trigger] out@[a].0) == e,
            decreases ks.len() - i,
        {
            let e = keys[i];
            proof {
                assert(ks.contains(ks[i as int]));
                assert(pool0.contains_key(e));
                assert(self.pools@[tags@[0]]@.contains_key(e));
                assert(self.entities@.contains_key(e));
                assert(!ks.subrange(0, i as int).contains(e)) by {
                    if ks.subrange(0, i as int).contains(e) {
                        let j = choose|j: int| 0 <= j < i && ks.subrange(0, i as int)[j] == e;
                        assert(ks[j] == ks[i as int]);
                    }
                }
                crate::seqs::lemma_prefix_extend(ks, i as int);
            }
            match self.fetch_row(e, tags) {
                None => {
                    proof {
                        assert forall|e2: u64|
                            ks.subrange(0, i + 1).contains(e2) && owns_all(
                                self.model(),
                                e2,
                                tags@,
                            ) implies exists|a: int|
                            0 <= a < out@.len() && (#[trigger] out@[a].0) == e2 by {
                            assert(ks.subrange(0, i as int).contains(e2));
                        }
                    }
                },
                Some(vals) => {
                    proof {
                        assert forall|a: int| 0 <= a < out@.len() implies out@[a].0 != e by {
                            assert(ks.subrange(0, i as int).contains(out@[a].0));
                        }
                    }
                    let ghost out0 = out@;
                    out.push((e, vals));
                    proof {
                        assert(out@[out0.len() as int].0 == e);
                        assert forall|e2: u64|
                            ks.subrange(0, i + 1).contains(e2) && owns_all(
                                self.model(),
                                e2,
                                tags@,
                            ) implies exists|a: int|
                            0 <= a < out@.len() && (#[trigger] out@[a].0) == e2 by {
                            if e2 != e {
                                assert(ks.subrange(0, i as int).contains(e2));
                                let a = choose|a: int|
                                    0 <= a < out0.len() && (#[trigger] out0[a].0) == e2;
                                assert(out@[a].0 == e2);
                            }
                        }
                        assert forall|a: int|
                            0 <= a < out@.len() implies ks.subrange(0, i + 1).contains(
                            #[trigger] out@[a].0,
                        ) by {
                            if a < out0.len() {
                                assert(ks.subrange(0, i as int).contains(out@[a].0));
                            }
                        }
                    }
                },
            }
            i += 1;
        }
        proof {
            assert(ks.subrange(0, ks.len() as int) =~= ks);
            assert forall|e: u64| owns_all(self.model(), e, tags@) implies exists|a: int|
                0 <= a < out@.len() && (#[trigger] out@[a].0) == e by {
                assert(self.model()[e].contains_key(tags@[0]));
                assert(self.entities@[e]@.contains(tags@[0]));
                assert(pool0.contains_key(e));
                assert(ks.contains(e));
            }
        }
        out
    }
}

} // verus!
