//! A forest of parent links (union-find), for joining what belongs together.

use vstd::prelude::*;

verus! {

/// `parent` is a forest in which `root` gives the root of every node. Heights rise along
/// the parents and stay within `bound`, so every walk to a root ends.
pub open spec fn is_forest(parent: Seq<usize>, root: Seq<int>, height: Seq<nat>, bound: nat) -> bool {
    &&& root.len() == parent.len()
    &&& height.len() == parent.len()
    &&& forall|x: int|
        #![trigger parent[x]]
        0 <= x < parent.len() ==> {
            &&& parent[x] < parent.len()
            &&& 0 <= root[x] < parent.len()
            &&& root[parent[x] as int] == root[x]
            &&& parent[root[x]] == root[x]
            &&& (parent[x] == x ==> root[x] == x)
            &&& (parent[x] != x ==> height[parent[x] as int] > height[x])
            &&& height[x] <= bound
        }
}

/// Iterative union-find root lookup with path halving.
pub fn find_root(
    parent: &mut Vec<usize>,
    node: usize,
    Ghost(root): Ghost<Seq<int>>,
    Ghost(height): Ghost<Seq<nat>>,
    Ghost(bound): Ghost<nat>,
) -> (r: usize)
    requires
        is_forest(old(parent)@, root, height, bound),
        node < old(parent)@.len(),
    ensures
        is_forest(final(parent)@, root, height, bound),
        final(parent)@.len() == old(parent)@.len(),
        r == root[node as int],
        r < final(parent)@.len(),
{
    let mut x: usize = node;
    while parent[x] != x
        invariant
            is_forest(parent@, root, height, bound),
            parent@.len() == old(parent)@.len(),
            x < parent@.len(),
            root[x as int] == root[node as int],
        decreases bound - height[x as int],
    {
        let up: usize = parent[x];
        let next: usize = parent[up];
        let ghost before = parent@;
        assert(before[up as int] == next);
        assert(before[next as int] < before.len());
        parent.set(x, next);
        assert(is_forest(parent@, root, height, bound)) by {
            assert forall|y: int|
                #![trigger parent@[y]]
                0 <= y < parent@.len() implies {
                &&& parent@[y] < parent@.len()
                &&& 0 <= root[y] < parent@.len()
                &&& root[parent@[y] as int] == root[y]
                &&& parent@[root[y]] == root[y]
                &&& (parent@[y] == y ==> root[y] == y)
                &&& (parent@[y] != y ==> height[parent@[y] as int] > height[y])
                &&& height[y] <= bound
            } by {
                assert(before[y] < before.len());
                assert(before[root[y]] == root[y]);
                assert(before[x as int] == up);
            }
        }
        x = next;
    }
    x
}

/// The roots after the tree of `a` is hung under `b`.
pub open spec fn joined_roots(root: Seq<int>, a: int, b: int) -> Seq<int> {
    root.map_values(|r: int| if r == a { b } else { r })
}

/// The heights after the tree of `a` is hung under `b`.
pub open spec fn joined_heights(root: Seq<int>, height: Seq<nat>, a: int, b: int) -> Seq<nat> {
    Seq::new(
        height.len(),
        |x: int| if root[x] == b { height[x] + height[a] + 1 } else { height[x] },
    )
}

/// A root hung under another root makes one tree of two.
pub proof fn lemma_join(parent: Seq<usize>, root: Seq<int>, height: Seq<nat>, bound: nat, a: int, b: usize)
    requires
        is_forest(parent, root, height, bound),
        0 <= a < parent.len(),
        b < parent.len(),
        a != b,
        parent[a] == a,
        parent[b as int] == b,
    ensures
        is_forest(
            parent.update(a, b),
            joined_roots(root, a, b as int),
            joined_heights(root, height, a, b as int),
            2 * bound + 1,
        ),
{
    let p = parent.update(a, b);
    let r = joined_roots(root, a, b as int);
    let h = joined_heights(root, height, a, b as int);
    assert forall|x: int|
        #![trigger p[x]]
        0 <= x < p.len() implies {
        &&& p[x] < p.len()
        &&& 0 <= r[x] < p.len()
        &&& r[p[x] as int] == r[x]
        &&& p[r[x]] == r[x]
        &&& (p[x] == x ==> r[x] == x)
        &&& (p[x] != x ==> h[p[x] as int] > h[x])
        &&& h[x] <= 2 * bound + 1
    } by {
        assert(parent[x] < parent.len());
        assert(parent[root[x]] == root[x]);
        assert(parent[a] == a);
        assert(parent[b as int] == b);
        assert(root[a] == a);
        assert(root[b as int] == b);
    }
}

} // verus!
