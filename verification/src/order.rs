//! The causal order. Every item has a place in a tree: its parent is its
//! left origin, and among the children of one parent the order is fixed by
//! a sibling key. The order of a sequence is the tree read parent first,
//! children in key order: paths of sibling keys, compared entry by entry.

use vstd::prelude::*;

verus! {

/// What orders the children of one parent. A child written in front of a
/// sibling it knew has a higher priority than that sibling; between children
/// of equal priority the replica decides, then the clock.
pub ghost struct SibKey {
    pub prio: nat,
    pub replica: u64,
    pub clock: u64,
}

/// `a` comes before `b` among siblings.
pub open spec fn key_lt(a: SibKey, b: SibKey) -> bool {
    a.prio > b.prio || (a.prio == b.prio && (a.replica < b.replica || (a.replica == b.replica
        && a.clock < b.clock)))
}

/// The sibling keys from a root down to an item.
pub type Path = Seq<SibKey>;

/// The first `k` entries of `p` and `q` are the same.
pub open spec fn agree(p: Path, q: Path, k: int) -> bool {
    &&& k <= p.len()
    &&& k <= q.len()
    &&& forall|i: int| 0 <= i < k ==> p[i] == q[i]
}

/// `p` is `q` or an ancestor of it.
pub open spec fn is_prefix(p: Path, q: Path) -> bool {
    agree(p, q, p.len() as int)
}

/// `p` and `q` part at entry `k`, `p` towards the earlier sibling.
pub open spec fn differ_at(p: Path, q: Path, k: int) -> bool {
    &&& 0 <= k < p.len()
    &&& k < q.len()
    &&& agree(p, q, k)
    &&& key_lt(p[k], q[k])
}

/// `p` comes before `q`: as an ancestor, or in an earlier branch.
pub open spec fn path_lt(p: Path, q: Path) -> bool {
    (is_prefix(p, q) && p.len() < q.len()) || exists|k: int| differ_at(p, q, k)
}

/// The order of paths is asymmetric.
pub proof fn lemma_path_lt_asym(p: Path, q: Path)
    requires
        path_lt(p, q),
    ensures
        !path_lt(q, p),
        p != q,
{
    if exists|k: int| differ_at(p, q, k) {
        let k1 = choose|k: int| differ_at(p, q, k);
        assert(p[k1] != q[k1]);
        if exists|k: int| differ_at(q, p, k) {
            let k2 = choose|k: int| differ_at(q, p, k);
            assert(q[k2] != p[k2]);
        }
    } else if exists|k: int| differ_at(q, p, k) {
        let k2 = choose|k: int| differ_at(q, p, k);
        assert(q[k2] != p[k2]);
    }
}

/// The order of paths is transitive.
pub proof fn lemma_path_lt_trans(p: Path, q: Path, r: Path)
    requires
        path_lt(p, q),
        path_lt(q, r),
    ensures
        path_lt(p, r),
{
    if exists|k: int| differ_at(p, q, k) {
        let k1 = choose|k: int| differ_at(p, q, k);
        if exists|k: int| differ_at(q, r, k) {
            let k2 = choose|k: int| differ_at(q, r, k);
            if k1 <= k2 {
                assert(differ_at(p, r, k1));
            } else {
                assert(differ_at(p, r, k2));
            }
        } else {
            assert(differ_at(p, r, k1));
        }
    } else {
        if exists|k: int| differ_at(q, r, k) {
            let k2 = choose|k: int| differ_at(q, r, k);
            if k2 < p.len() {
                assert(differ_at(p, r, k2));
            } else {
                assert(is_prefix(p, r));
            }
        } else {
            assert(is_prefix(p, r));
        }
    }
}

proof fn lemma_trichotomy_from(p: Path, q: Path, k: int)
    requires
        0 <= k,
        agree(p, q, k),
    ensures
        p == q || path_lt(p, q) || path_lt(q, p),
    decreases p.len() - k,
{
    if k == p.len() {
        if k == q.len() {
            assert(p =~= q);
        } else {
            assert(is_prefix(p, q));
        }
    } else if k == q.len() {
        assert(is_prefix(q, p));
    } else if p[k] == q[k] {
        lemma_trichotomy_from(p, q, k + 1);
    } else if key_lt(p[k], q[k]) {
        assert(differ_at(p, q, k));
    } else {
        assert(key_lt(q[k], p[k]));
        assert(differ_at(q, p, k));
    }
}

/// Of two different paths one comes before the other.
pub proof fn lemma_path_trichotomy(p: Path, q: Path)
    ensures
        p == q || path_lt(p, q) || path_lt(q, p),
{
    lemma_trichotomy_from(p, q, 0);
}

/// What lies between a path and one of its children lies below the path.
pub proof fn lemma_between(p: Path, a: Path, k: SibKey)
    requires
        path_lt(p, a),
        path_lt(a, p.push(k)),
    ensures
        is_prefix(p, a),
        p.len() < a.len(),
{
    let c = p.push(k);
    if exists|j: int| differ_at(a, c, j) {
        let j = choose|j: int| differ_at(a, c, j);
        if j < p.len() {
            assert(differ_at(a, p, j));
            assert(path_lt(a, p));
            lemma_path_lt_asym(p, a);
        }
    } else {
        assert(is_prefix(a, c) && a.len() < c.len());
        assert(is_prefix(a, p));
        if a.len() < p.len() {
            assert(path_lt(a, p));
        } else {
            assert(a =~= p);
        }
        lemma_path_lt_asym(p, a);
    }
}

/// A path that leaves the line of `p` at or above `p`'s own entry, and
/// comes after `p`, comes after everything below `p` too.
pub proof fn lemma_after_subtree(p: Path, z: Path, below: Path)
    requires
        1 <= z.len() <= p.len(),
        agree(z, p, z.len() - 1),
        path_lt(p, z),
        is_prefix(p, below),
    ensures
        path_lt(below, z),
{
    let m = z.len() - 1;
    let k = choose|k: int| differ_at(p, z, k);
    assert(differ_at(p, z, k));
    assert(k == m);
    assert(differ_at(below, z, m));
}

/// Below a common parent the sibling keys decide.
pub proof fn lemma_branch(parent: Path, a: Path, b: Path)
    requires
        is_prefix(parent, a),
        is_prefix(parent, b),
        parent.len() < a.len(),
        parent.len() < b.len(),
        key_lt(a[parent.len() as int], b[parent.len() as int]),
    ensures
        path_lt(a, b),
{
    assert(differ_at(a, b, parent.len() as int));
}

} // verus!
