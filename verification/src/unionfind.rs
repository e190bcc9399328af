use vstd::prelude::*;

verus! {

/// Walk at most `fuel` parent steps from `x` in the parent array `p`.
pub open spec fn walk(p: Seq<usize>, x: int, fuel: nat) -> int
    decreases fuel,
{
    if fuel == 0 {
        x
    } else if p[x] == x {
        x
    } else {
        walk(p, p[x] as int, (fuel - 1) as nat)
    }
}

/// `fuel` steps from `x` suffice to arrive at a root of `p`.
pub open spec fn reaches_root(p: Seq<usize>, x: int, fuel: nat) -> bool {
    p[walk(p, x, fuel)] == walk(p, x, fuel)
}

/// Some number of steps from `x` arrives at a root.
pub open spec fn grounded(p: Seq<usize>, x: int) -> bool {
    exists|fuel: nat| reaches_root(p, x, fuel)
}

/// Every entry is in bounds and every chain of parents ends at a root.
pub open spec fn wf_parents(p: Seq<usize>) -> bool {
    &&& forall|i: int| 0 <= i < p.len() ==> (#[trigger] p[i]) < p.len()
    &&& forall|i: int| 0 <= i < p.len() ==> #[trigger] grounded(p, i)
}

/// The root that the chain of parents starting at `x` arrives at.
pub open spec fn root_of(p: Seq<usize>, x: int) -> int {
    walk(p, x, choose|fuel: nat| reaches_root(p, x, fuel))
}

/// Indices in the same cluster reach the same root.
pub open spec fn same_cluster(p: Seq<usize>, x: int, y: int) -> bool {
    root_of(p, x) == root_of(p, y)
}

/// Every index points directly at its root (depth at most one).
pub open spec fn flattened(p: Seq<usize>) -> bool {
    forall|i: int| 0 <= i < p.len() ==> #[trigger] p[p[i] as int] == p[i]
}

/// A walk stays put once it has arrived at a root.
proof fn lemma_walk_stable(p: Seq<usize>, x: int, fuel: nat, more: nat)
    requires
        0 <= x < p.len(),
        forall|i: int| 0 <= i < p.len() ==> p[i] < p.len(),
        reaches_root(p, x, fuel),
        fuel <= more,
    ensures
        walk(p, x, more) == walk(p, x, fuel),
        reaches_root(p, x, more),
    decreases fuel,
{
    if fuel == 0 {
        if more > 0 {
            assert(p[x] == x);
        }
    } else if p[x] == x {
        lemma_walk_root_fixed(p, x, fuel);
        lemma_walk_root_fixed(p, x, more);
    } else {
        lemma_walk_stable(p, p[x] as int, (fuel - 1) as nat, (more - 1) as nat);
    }
}

/// A walk starting at a root never leaves it.
proof fn lemma_walk_root_fixed(p: Seq<usize>, x: int, fuel: nat)
    requires
        0 <= x < p.len(),
        p[x] == x,
    ensures
        walk(p, x, fuel) == x,
    decreases fuel,
{
    if fuel > 0 {
        lemma_walk_root_fixed(p, x, (fuel - 1) as nat)
    }
}

/// `root_of` agrees with any walk that arrives at a root.
pub proof fn lemma_root_of_walk(p: Seq<usize>, x: int, fuel: nat)
    requires
        0 <= x < p.len(),
        forall|i: int| 0 <= i < p.len() ==> p[i] < p.len(),
        reaches_root(p, x, fuel),
    ensures
        root_of(p, x) == walk(p, x, fuel),
        p[root_of(p, x)] == root_of(p, x),
{
    let chosen: nat = choose|f: nat| reaches_root(p, x, f);
    if chosen <= fuel {
        lemma_walk_stable(p, x, chosen, fuel);
    } else {
        lemma_walk_stable(p, x, fuel, chosen);
    }
}

/// The root is an index of the array.
pub proof fn lemma_root_in_bounds(p: Seq<usize>, x: int)
    requires
        wf_parents(p),
        0 <= x < p.len(),
    ensures
        0 <= root_of(p, x) < p.len(),
        p[root_of(p, x)] == root_of(p, x),
{
    assert(grounded(p, x));
    let fuel: nat = choose|f: nat| reaches_root(p, x, f);
    lemma_walk_in_bounds(p, x, fuel);
    lemma_root_of_walk(p, x, fuel);
}

proof fn lemma_walk_in_bounds(p: Seq<usize>, x: int, fuel: nat)
    requires
        0 <= x < p.len(),
        forall|i: int| 0 <= i < p.len() ==> p[i] < p.len(),
    ensures
        0 <= walk(p, x, fuel) < p.len(),
    decreases fuel,
{
    if fuel > 0 && p[x] != x {
        lemma_walk_in_bounds(p, p[x] as int, (fuel - 1) as nat);
    }
}

/// One parent step does not change the root: `root_of(p, x) == root_of(p, p[x])`.
/// This is the heart of the union-find invariant: compressing a path or asking
/// for the root of the parent gives the same cluster representative.
pub proof fn lemma_root_of_parent(p: Seq<usize>, x: int)
    requires
        wf_parents(p),
        0 <= x < p.len(),
    ensures
        root_of(p, p[x] as int) == root_of(p, x),
{
    assert(grounded(p, x));
    let fuel: nat = choose|f: nat| reaches_root(p, x, f);
    lemma_root_of_walk(p, x, fuel);
    if p[x] == x {
    } else {
        if fuel == 0 {
            // walk with fuel 0 is x itself, and it is a root, contradiction with p[x] != x
            assert(walk(p, x, 0nat) == x);
        } else {
            assert(walk(p, x, fuel) == walk(p, p[x] as int, (fuel - 1) as nat));
            assert(reaches_root(p, p[x] as int, (fuel - 1) as nat));
            lemma_root_of_walk(p, p[x] as int, (fuel - 1) as nat);
        }
    }
}

/// Pointing `x` directly at its root leaves every walk's destination unchanged.
proof fn lemma_compress_walk(p: Seq<usize>, x: int, r: int, y: int, fuel: nat)
    requires
        forall|i: int| 0 <= i < p.len() ==> p[i] < p.len(),
        0 <= x < p.len(),
        r == root_of(p, x),
        exists|f: nat| reaches_root(p, x, f),
        0 <= y < p.len(),
        reaches_root(p, y, fuel),
    ensures
        walk(p.update(x, r as usize), y, fuel) == walk(p, y, fuel),
        reaches_root(p.update(x, r as usize), y, fuel),
    decreases fuel,
{
    let xfuel: nat = choose|f: nat| reaches_root(p, x, f);
    lemma_root_of_walk(p, x, xfuel);
    lemma_walk_in_bounds(p, x, xfuel);
    let p2 = p.update(x, r as usize);
    if p[x] == x {
        assert(r == x) by {
            lemma_root_of_walk(p, x, 0nat);
        }
        assert(p2 =~= p);
    } else if y == x {
        // r is a root distinct from x, so p2[r] == p[r] == r
        assert(r != x);
        assert(fuel > 0) by {
            if fuel == 0 {
                assert(walk(p, y, 0nat) == y);
            }
        }
        lemma_walk_root_fixed(p2, r, (fuel - 1) as nat);
        assert(walk(p2, y, fuel) == r);
        lemma_root_of_walk(p, y, fuel);
        assert(walk(p, y, fuel) == r);
    } else {
        if p[y] == y {
            lemma_walk_root_fixed(p, y, fuel);
            lemma_walk_root_fixed(p2, y, fuel);
        } else {
            assert(fuel > 0) by {
                if fuel == 0 {
                    assert(walk(p, y, 0nat) == y);
                }
            }
            assert(walk(p, y, fuel) == walk(p, p[y] as int, (fuel - 1) as nat));
            lemma_compress_walk(p, x, r, p[y] as int, (fuel - 1) as nat);
            assert(walk(p2, y, fuel) == walk(p2, p[y] as int, (fuel - 1) as nat));
        }
    }
}

/// Path compression preserves well-formedness and every root.
pub proof fn lemma_compress(p: Seq<usize>, x: int)
    requires
        wf_parents(p),
        0 <= x < p.len(),
    ensures
        wf_parents(p.update(x, root_of(p, x) as usize)),
        forall|y: int|
            0 <= y < p.len() ==> root_of(p.update(x, root_of(p, x) as usize), y) == root_of(p, y),
{
    let r = root_of(p, x);
    lemma_root_in_bounds(p, x);
    let p2 = p.update(x, r as usize);
    assert forall|y: int| 0 <= y < p.len() implies p2[y] < p.len() && #[trigger] grounded(p2, y)
        && root_of(p2, y) == root_of(p, y) by {
        assert(grounded(p, y));
        let fuel: nat = choose|f: nat| reaches_root(p, y, f);
        assert(grounded(p, x));
        lemma_compress_walk(p, x, r, y, fuel);
        assert(grounded(p2, y));
        lemma_root_of_walk(p, y, fuel);
        assert(forall|i: int| 0 <= i < p2.len() ==> p2[i] < p2.len());
        lemma_root_of_walk(p2, y, fuel);
    }
    assert forall|y: int| 0 <= y < p.len() implies #[trigger] root_of(p2, y) == root_of(p, y) by {
        assert(grounded(p2, y));
    }
}

/// Linking root `ry` under root `rx` reroutes exactly the cluster of `ry`.
proof fn lemma_link_walk(p: Seq<usize>, rx: int, ry: int, z: int, fuel: nat)
    requires
        forall|i: int| 0 <= i < p.len() ==> p[i] < p.len(),
        0 <= rx < p.len(),
        0 <= ry < p.len(),
        p[rx] == rx,
        p[ry] == ry,
        rx != ry,
        0 <= z < p.len(),
        reaches_root(p, z, fuel),
    ensures
        reaches_root(p.update(ry, rx as usize), z, fuel + 1),
        walk(p.update(ry, rx as usize), z, fuel + 1) == if walk(p, z, fuel) == ry {
            rx
        } else {
            walk(p, z, fuel)
        },
    decreases fuel,
{
    let p2 = p.update(ry, rx as usize);
    if p[z] == z {
        lemma_walk_root_fixed(p, z, fuel);
        if z == ry {
            lemma_walk_root_fixed(p2, rx, fuel);
            assert(walk(p2, z, fuel + 1) == walk(p2, rx, fuel));
        } else {
            lemma_walk_root_fixed(p2, z, fuel + 1);
        }
    } else {
        assert(fuel > 0) by {
            if fuel == 0 {
                assert(walk(p, z, 0nat) == z);
            }
        }
        assert(z != ry);
        assert(walk(p, z, fuel) == walk(p, p[z] as int, (fuel - 1) as nat));
        lemma_link_walk(p, rx, ry, p[z] as int, (fuel - 1) as nat);
        assert(walk(p2, z, fuel + 1) == walk(p2, p[z] as int, fuel));
    }
}

/// The effect of `union` on roots: classes of `ry` move to `rx`, others stay.
pub proof fn lemma_link(p: Seq<usize>, rx: int, ry: int)
    requires
        wf_parents(p),
        0 <= rx < p.len(),
        0 <= ry < p.len(),
        p[rx] == rx,
        p[ry] == ry,
        rx != ry,
    ensures
        wf_parents(p.update(ry, rx as usize)),
        forall|z: int|
            0 <= z < p.len() ==> root_of(p.update(ry, rx as usize), z) == (if root_of(p, z) == ry {
                rx
            } else {
                root_of(p, z)
            }),
{
    let p2 = p.update(ry, rx as usize);
    assert forall|z: int| 0 <= z < p.len() implies p2[z] < p.len() && #[trigger] grounded(p2, z)
        && root_of(p2, z) == (if root_of(p, z) == ry {
        rx
    } else {
        root_of(p, z)
    }) by {
        assert(grounded(p, z));
        let fuel: nat = choose|f: nat| reaches_root(p, z, f);
        lemma_link_walk(p, rx, ry, z, fuel);
        assert(grounded(p2, z));
        lemma_root_of_walk(p, z, fuel);
        assert(forall|i: int| 0 <= i < p2.len() ==> p2[i] < p2.len());
        lemma_root_of_walk(p2, z, fuel + 1);
    }
    assert forall|z: int| 0 <= z < p.len() implies #[trigger] root_of(p2, z) == (if root_of(p, z)
        == ry {
        rx
    } else {
        root_of(p, z)
    }) by {
        assert(grounded(p2, z));
    }
}

/// Whatever unions built the structure, an index and its parent always
/// share one root: `find(x)` and `find(parents[x])` agree. This holds for
/// every well-formed parent array, hence after any sequence of `union`
/// and `find` calls, which all preserve `wf_parents`.
pub proof fn lemma_find_agrees_with_parent(p: Seq<usize>, x: int)
    requires
        wf_parents(p),
        0 <= x < p.len(),
    ensures
        root_of(p, x) == root_of(p, p[x] as int),
{
    lemma_root_of_parent(p, x);
}

/// After flattening, every chain of parents is at a fixed point within one
/// step: each entry holds its root, and the root holds itself.
pub proof fn lemma_flattened_fixed_point(p: Seq<usize>, x: int)
    requires
        wf_parents(p),
        flattened(p),
        0 <= x < p.len(),
    ensures
        root_of(p, x) == p[x],
        p[p[x] as int] == p[x],
{
    if p[x] == x {
        assert(walk(p, x, 1nat) == x);
    } else {
        assert(walk(p, p[x] as int, 0nat) == p[x] as int);
        assert(walk(p, x, 1nat) == p[x] as int);
        assert(p[p[x] as int] == p[x]);
    }
    assert(reaches_root(p, x, 1nat));
    lemma_root_of_walk(p, x, 1nat);
}

/// Each cluster has exactly one index that is its own parent, namely the
/// root, so a pass that keeps index `j` iff `p[j] == j` keeps one
/// representative per cluster and drops every other member.
pub proof fn lemma_unique_survivor(p: Seq<usize>, x: int)
    requires
        wf_parents(p),
        0 <= x < p.len(),
    ensures
        0 <= root_of(p, x) < p.len(),
        p[root_of(p, x)] == root_of(p, x),
        same_cluster(p, x, root_of(p, x)),
        forall|j: int|
            0 <= j < p.len() && same_cluster(p, x, j) && p[j] == j ==> j == root_of(p, x),
{
    lemma_root_in_bounds(p, x);
    let r = root_of(p, x);
    assert(root_of(p, r) == r) by {
        lemma_root_of_walk(p, r, 0nat);
    }
    assert forall|j: int| 0 <= j < p.len() && same_cluster(p, x, j) && p[j] == j implies j
        == root_of(p, x) by {
        lemma_root_of_walk(p, j, 0nat);
    }
}

/// The exact effect of `union(x, y)` on the parent array: a no-op when
/// `x == y`; otherwise both arguments are path-compressed by `find`, and
/// when their roots differ, the root of `y` is pointed at the root of `x`.
pub open spec fn union_spec(p: Seq<usize>, x: int, y: int) -> Seq<usize> {
    if x == y {
        p
    } else {
        let p1 = p.update(x, root_of(p, x) as usize);
        let p2 = p1.update(y, root_of(p, y) as usize);
        if root_of(p, x) == root_of(p, y) {
            p2
        } else {
            p2.update(root_of(p, y), root_of(p, x) as usize)
        }
    }
}

/// Disjoint-set structure over the dense document ids `0 .. n`.
///
/// `parents[i] == i` exactly when `i` is the representative of its cluster;
/// following parents from any index arrives at such a representative.
pub struct UnionFind {
    pub parents: Vec<usize>,
}

impl View for UnionFind {
    type V = Seq<usize>;

    open spec fn view(&self) -> Seq<usize> {
        self.parents@
    }
}

impl UnionFind {
    pub open spec fn wf(&self) -> bool {
        wf_parents(self@)
    }

    /// Parents initialized to the identity: every index is its own cluster.
    pub fn new(n: usize) -> (uf: UnionFind)
        ensures
            uf@.len() == n,
            uf.wf(),
            forall|i: int| 0 <= i < n ==> uf@[i] == i,
            forall|i: int| 0 <= i < n ==> root_of(uf@, i) == i,
    {
        let mut parents: Vec<usize> = Vec::new();
        let mut i: usize = 0;
        while i < n
            invariant
                i <= n,
                parents@.len() == i,
                forall|j: int| 0 <= j < i ==> parents@[j] == j,
            decreases n - i,
        {
            parents.push(i);
            i = i + 1;
        }
        let uf = UnionFind { parents };
        proof {
            assert forall|j: int| 0 <= j < n implies uf@[j] < n && #[trigger] grounded(uf@, j)
                && root_of(uf@, j) == j by {
                assert(reaches_root(uf@, j, 0nat));
                assert(grounded(uf@, j));
                lemma_root_of_walk(uf@, j, 0nat);
            }
        }
        uf
    }

    pub fn len(&self) -> (n: usize)
        ensures
            n == self@.len(),
    {
        self.parents.len()
    }

    /// Walk to the root of `x`, then point `x` directly at it
    /// (one-step path compression). Roots of all indices are unchanged.
    pub fn find(&mut self, x: usize) -> (r: usize)
        requires
            old(self).wf(),
            x < old(self)@.len(),
        ensures
            r == root_of(old(self)@, x as int),
            r < old(self)@.len(),
            final(self)@[r as int] == r,
            final(self)@ == old(self)@.update(x as int, r),
            final(self).wf(),
            forall|z: int|
                0 <= z < old(self)@.len() ==> root_of(final(self)@, z) == root_of(old(self)@, z),
    {
        let ghost p = self@;
        let mut cur = x;
        proof {
            assert(grounded(p, x as int));
        }
        let ghost mut fuel: nat = choose|f: nat| reaches_root(p, x as int, f);
        while self.parents[cur] != cur
            invariant
                self@ == p,
                wf_parents(p),
                cur < p.len(),
                reaches_root(p, cur as int, fuel),
                root_of(p, cur as int) == root_of(p, x as int),
            decreases fuel,
        {
            proof {
                assert(fuel > 0) by {
                    if fuel == 0 {
                        assert(walk(p, cur as int, 0nat) == cur as int);
                    }
                }
                lemma_root_of_parent(p, cur as int);
            }
            let prev = cur;
            cur = self.parents[cur];
            proof {
                assert(walk(p, prev as int, fuel) == walk(p, cur as int, (fuel - 1) as nat));
                fuel = (fuel - 1) as nat;
            }
        }
        proof {
            lemma_root_of_walk(p, cur as int, 0nat);
            lemma_compress(p, x as int);
        }
        self.parents.set(x, cur);
        cur
    }

    /// No-op when `x == y`; otherwise the canonical parent of `y` is linked
    /// under the canonical parent of `x`, so the first argument's
    /// representative wins.
    pub fn union(&mut self, x: usize, y: usize)
        requires
            old(self).wf(),
            x < old(self)@.len(),
            y < old(self)@.len(),
        ensures
            final(self)@.len() == old(self)@.len(),
            final(self).wf(),
            forall|z: int|
                0 <= z < old(self)@.len() ==> root_of(final(self)@, z) == (if root_of(old(self)@, z)
                    == root_of(old(self)@, y as int) {
                    root_of(old(self)@, x as int)
                } else {
                    root_of(old(self)@, z)
                }),
            same_cluster(final(self)@, x as int, y as int),
            final(self)@ == union_spec(old(self)@, x as int, y as int),
    {
        let ghost p0 = self@;
        if x == y {
            return ;
        }
        let rx = self.find(x);
        let ghost p1 = self@;
        let ry = self.find(y);
        let ghost p2 = self@;
        proof {
            assert(root_of(p1, x as int) == root_of(p0, x as int));
            assert(root_of(p1, y as int) == root_of(p0, y as int));
            assert(root_of(p2, x as int) == root_of(p1, x as int));
            assert(root_of(p2, y as int) == root_of(p1, y as int));
        }
        if rx != ry {
            proof {
                assert(p2[ry as int] == ry);
                assert(p2[rx as int] == rx) by {
                    assert(p1[rx as int] == rx);
                    if rx == y {
                        // then ry is the root of rx, which is itself a root
                        lemma_root_of_walk(p1, rx as int, 0nat);
                    }
                    assert(p2 == p1.update(y as int, ry));
                }
                lemma_link(p2, rx as int, ry as int);
            }
            self.parents.set(ry, rx);
            proof {
                let p3 = self@;
                assert forall|z: int| 0 <= z < p0.len() implies #[trigger] root_of(p3, z) == (
                if root_of(p0, z) == root_of(p0, y as int) {
                    root_of(p0, x as int)
                } else {
                    root_of(p0, z)
                }) by {
                    assert(root_of(p2, z) == root_of(p1, z));
                    assert(root_of(p1, z) == root_of(p0, z));
                    assert(root_of(p3, z) == (if root_of(p2, z) == ry {
                        rx as int
                    } else {
                        root_of(p2, z)
                    }));
                }
                assert(root_of(p3, x as int) == rx);
                assert(root_of(p3, y as int) == rx);
            }
        } else {
            proof {
                assert forall|z: int| 0 <= z < p0.len() implies #[trigger] root_of(p2, z) == (
                if root_of(p0, z) == root_of(p0, y as int) {
                    root_of(p0, x as int)
                } else {
                    root_of(p0, z)
                }) by {
                    assert(root_of(p2, z) == root_of(p1, z));
                    assert(root_of(p1, z) == root_of(p0, z));
                }
            }
        }
    }

    /// Point every index directly at its root. Cluster structure is
    /// unchanged, and afterwards every chain stabilizes in one step.
    pub fn flatten(&mut self)
        requires
            old(self).wf(),
        ensures
            final(self)@.len() == old(self)@.len(),
            final(self).wf(),
            flattened(final(self)@),
            forall|z: int|
                0 <= z < old(self)@.len() ==> root_of(final(self)@, z) == root_of(old(self)@, z),
            forall|z: int|
                0 <= z < old(self)@.len() ==> final(self)@[z] == root_of(old(self)@, z),
    {
        let ghost p0 = self@;
        let n = self.parents.len();
        let mut i: usize = 0;
        while i < n
            invariant
                i <= n,
                self@.len() == n,
                n == p0.len(),
                wf_parents(p0),
                self.wf(),
                forall|z: int| 0 <= z < n ==> root_of(self@, z) == root_of(p0, z),
                forall|z: int| 0 <= z < i ==> self@[z] == root_of(p0, z),
            decreases n - i,
        {
            let ghost pre = self@;
            let r = self.find(i);
            proof {
                assert(self@ == pre.update(i as int, r));
                assert(self@[i as int] == root_of(p0, i as int));
                assert forall|z: int| 0 <= z < i implies self@[z] == root_of(p0, z) by {
                    assert(self@[z] == pre[z]);
                }
            }
            i = i + 1;
        }
        proof {
            assert forall|z: int| 0 <= z < n implies #[trigger] self@[self@[z] as int]
                == self@[z] by {
                lemma_root_in_bounds(p0, z);
                let r = root_of(p0, z);
                assert(self@[z] == r);
                assert(root_of(p0, r) == r) by {
                    lemma_root_of_walk(p0, r, 0nat);
                }
                assert(self@[r] == r);
            }
        }
    }
}

} // verus!
