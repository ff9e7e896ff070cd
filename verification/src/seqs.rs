//! Small lemmas about duplicate-free sequences, used by the pool and the
//! registry to reason about key lists and per-entity type lists.

use vstd::prelude::*;

verus! {

/// Pushing a fresh element keeps a sequence duplicate-free, and extends its
/// membership by exactly that element.
pub(crate) proof fn lemma_push_unique(s: Seq<u64>, x: u64)
    requires
        s.no_duplicates(),
        !s.contains(x),
    ensures
        s.push(x).no_duplicates(),
        forall|y: u64| #[trigger] s.push(x).contains(y) <==> (s.contains(y) || y == x),
{
    assert forall|y: u64| #[trigger] s.push(x).contains(y) implies (s.contains(y) || y == x) by {
        let i = choose|i: int| 0 <= i < s.push(x).len() && s.push(x)[i] == y;
        if i < s.len() {
            assert(s[i] == y);
        }
    }
    assert forall|y: u64| s.contains(y) || y == x implies #[trigger] s.push(x).contains(y) by {
        if y == x {
            assert(s.push(x)[s.len() as int] == y);
        } else {
            let i = choose|i: int| 0 <= i < s.len() && s[i] == y;
            assert(s.push(x)[i] == y);
        }
    }
    assert forall|i: int, j: int|
        0 <= i < s.push(x).len() && 0 <= j < s.push(x).len() && i != j implies s.push(x)[i]
        != s.push(x)[j] by {
        if i < s.len() && j < s.len() {
            assert(s[i] != s[j]);
        } else if i < s.len() {
            assert(s.contains(s[i]));
        } else if j < s.len() {
            assert(s.contains(s[j]));
        }
    }
}

/// Removing position `i` from a duplicate-free sequence keeps it
/// duplicate-free, and shrinks its membership by exactly the element that
/// stood at `i`.
pub(crate) proof fn lemma_remove_unique(s: Seq<u64>, i: int)
    requires
        s.no_duplicates(),
        0 <= i < s.len(),
    ensures
        s.remove(i).no_duplicates(),
        forall|y: u64| #[trigger] s.remove(i).contains(y) <==> (s.contains(y) && y != s[i]),
{
    s.remove_ensures(i);
    let rest = s.remove(i);
    assert forall|y: u64| #[trigger] rest.contains(y) implies (s.contains(y) && y != s[i]) by {
        let j = choose|j: int| 0 <= j < rest.len() && rest[j] == y;
        let j0: int = if j < i {
            j
        } else {
            j + 1
        };
        assert(s[j0] == y);
        assert(s.contains(y));
    }
    assert forall|y: u64| s.contains(y) && y != s[i] implies #[trigger] rest.contains(y) by {
        let j0 = choose|j0: int| 0 <= j0 < s.len() && s[j0] == y;
        let j: int = if j0 < i {
            j0
        } else {
            j0 - 1
        };
        assert(rest[j] == y);
    }
    assert forall|p: int, q: int|
        0 <= p < rest.len() && 0 <= q < rest.len() && p != q implies rest[p] != rest[q] by {
        let p0: int = if p < i {
            p
        } else {
            p + 1
        };
        let q0: int = if q < i {
            q
        } else {
            q + 1
        };
        assert(s[p0] == rest[p] && s[q0] == rest[q]);
    }
}

/// One more element of a prefix: the members of `s.subrange(0, i + 1)` are
/// those of `s.subrange(0, i)` together with `s[i]`.
pub(crate) proof fn lemma_prefix_extend(s: Seq<u64>, i: int)
    requires
        0 <= i < s.len(),
    ensures
        forall|y: u64| #[trigger] s.subrange(0, i + 1).contains(y) <==> (s.subrange(
            0,
            i,
        ).contains(y) || y == s[i]),
{
    let pre = s.subrange(0, i);
    let ext = s.subrange(0, i + 1);
    assert(ext =~= pre.push(s[i]));
    assert forall|y: u64| #[trigger] ext.contains(y) implies (pre.contains(y) || y == s[i]) by {
        let j = choose|j: int| 0 <= j < ext.len() && ext[j] == y;
        if j < i {
            assert(pre[j] == y);
        }
    }
    assert forall|y: u64| pre.contains(y) || y == s[i] implies #[trigger] ext.contains(y) by {
        if y == s[i] {
            assert(ext[i] == y);
        } else {
            let j = choose|j: int| 0 <= j < pre.len() && pre[j] == y;
            assert(ext[j] == y);
        }
    }
}

} // verus!
