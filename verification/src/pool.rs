//! A component pool: the values of one component type, keyed by entity.
//!
//! The pool pairs a hash table, which gives the associative lookup, with a
//! list of the same keys, so that a view can walk the pool's entities. The
//! well-formedness predicate ties the two together: the list holds each key
//! of the table exactly once.

use std::collections::HashMap;
use vstd::prelude::*;

verus! {

broadcast use vstd::std_specs::hash::group_hash_axioms;

pub(crate) struct Pool<V> {
    table: HashMap<u64, V>,
    members: Vec<u64>,
}

impl<V> View for Pool<V> {
    type V = Map<u64, V>;

    closed spec fn view(&self) -> Map<u64, V> {
        self.table@
    }
}

impl<V> Pool<V> {
    pub(crate) closed spec fn wf(self) -> bool {
        &&& self.members@.no_duplicates()
        &&& forall|e: u64| #[trigger] self.members@.contains(e) ==> self.table@.contains_key(e)
        &&& forall|e: u64| #[trigger] self.table@.contains_key(e) ==> self.members@.contains(e)
    }

    pub(crate) fn new() -> (r: Self)
        ensures
            r.wf(),
            r@ == Map::<u64, V>::empty(),
    {
        Pool { table: HashMap::new(), members: Vec::new() }
    }

    pub(crate) fn get(&self, e: u64) -> (r: Option<&V>)
        ensures
            (match r {
                Some(v) => self@.contains_key(e) && *v == self@[e],
                None => !self@.contains_key(e),
            }),
    {
        self.table.get(&e)
    }

    /// Stores `v` for entity `e`, overwriting any value the pool already
    /// held for `e`.
    pub(crate) fn put(&mut self, e: u64, v: V)
        requires
            old(self).wf(),
        ensures
            final(self).wf(),
            final(self)@ == old(self)@.insert(e, v),
    {
        let prev = self.table.insert(e, v);
        if prev.is_none() {
            self.members.push(e);
            proof {
                let ms = old(self).members@;
                assert forall|x: u64| #[trigger] self.members@.contains(x) implies self.table@.contains_key(x) by {
                    let i = choose|i: int|
                        0 <= i < self.members@.len() && self.members@[i] == x;
                    if i < ms.len() {
                        assert(ms.contains(x));
                    }
                }
                assert forall|x: u64| #[trigger] self.table@.contains_key(x) implies self.members@.contains(x) by {
                    if x == e {
                        assert(self.members@[ms.len() as int] == e);
                    } else {
                        let i = choose|i: int| 0 <= i < ms.len() && ms[i] == x;
                        assert(self.members@[i] == x);
                    }
                }
                assert(self.members@.no_duplicates()) by {
                    assert(forall|i: int|
                        0 <= i < ms.len() ==> self.members@[i] == #[trigger] ms[i]);
                    assert(forall|i: int| 0 <= i < ms.len() ==> ms.contains(#[trigger] ms[i]));
                }
            }
        }
    }

    /// Removes and returns the value the pool holds for entity `e`, if any.
    pub(crate) fn take(&mut self, e: u64) -> (r: Option<V>)
        requires
            old(self).wf(),
        ensures
            final(self).wf(),
            final(self)@ == old(self)@.remove(e),
            (match r {
                Some(v) => old(self)@.contains_key(e) && v == old(self)@[e],
                None => !old(self)@.contains_key(e),
            }),
    {
        match self.table.remove(&e) {
            None => {
                proof {
                    assert(old(self)@.remove(e) =~= old(self)@);
                }
                None
            },
            Some(v) => {
                let ghost ms = self.members@;
                let mut i: usize = 0;
                while i < self.members.len() && self.members[i] != e
                    invariant
                        self.members@ == ms,
                        i <= ms.len(),
                        forall|j: int| 0 <= j < i ==> ms[j] != e,
                        ms.contains(e),
                    decreases ms.len() - i,
                {
                    i += 1;
                }
                proof {
                    assert(i < ms.len() && ms[i as int] == e) by {
                        if i >= ms.len() {
                            let j = choose|j: int| 0 <= j < ms.len() && ms[j] == e;
                        }
                    }
                }
                self.members.remove(i);
                proof {
                    ms.remove_ensures(i as int);
                    let rest = self.members@;
                    assert forall|x: u64| #[trigger] rest.contains(x) implies self.table@.contains_key(x) by {
                        let j = choose|j: int| 0 <= j < rest.len() && rest[j] == x;
                        let j0: int = if j < i { j } else { j + 1 };
                        assert(ms[j0] == x);
                        assert(ms.contains(x));
                        assert(x != e) by {
                            if j0 != i {
                                assert(ms[j0] != ms[i as int]);
                            }
                        }
                    }
                    assert forall|x: u64| #[trigger] self.table@.contains_key(x) implies
                        rest.contains(x) by {
                        assert(ms.contains(x));
                        let j0 = choose|j0: int| 0 <= j0 < ms.len() && ms[j0] == x;
                        let j: int = if j0 < i { j0 } else { j0 - 1 };
                        assert(j0 != i);
                        assert(rest[j] == x);
                    }
                    assert(rest.no_duplicates()) by {
                        assert forall|p: int, q: int|
                            0 <= p < rest.len() && 0 <= q < rest.len() && p != q implies rest[p]
                            != rest[q] by {
                            let p0: int = if p < i { p } else { p + 1 };
                            let q0: int = if q < i { q } else { q + 1 };
                            assert(ms[p0] == rest[p] && ms[q0] == rest[q]);
                        }
                    }
                }
                Some(v)
            },
        }
    }

    /// Whether the pool holds no entry at all.
    pub(crate) fn is_empty(&self) -> (r: bool)
        requires
            self.wf(),
        ensures
            r == (self@ == Map::<u64, V>::empty()),
    {
        let r = self.members.len() == 0;
        proof {
            if r {
                assert(self@ =~= Map::<u64, V>::empty()) by {
                    assert(forall|e: u64| !(#[trigger] self@.contains_key(e)));
                }
            } else {
                assert(self.members@.contains(self.members@[0]));
                assert(self@.contains_key(self.members@[0]));
            }
        }
        r
    }

    /// The pool's entities, each exactly once, in the pool's own order.
    pub(crate) fn entities(&self) -> (r: &Vec<u64>)
        requires
            self.wf(),
        ensures
            r@.no_duplicates(),
            forall|e: u64| #[trigger] r@.contains(e) <==> self@.contains_key(e),
    {
        &self.members
    }
}

} // verus!
