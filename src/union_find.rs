//! A disjoint-set structure over a fixed set of keys, with a directional union
//! (the first argument's representative survives) and full path compression.
use vstd::laws_eq::obeys_concrete_eq;
use vstd::prelude::*;

verus! {

/// Every non-root node points at a node of strictly higher rank, and every rank is below `top`.
pub open spec fn ranked(parents: Seq<usize>, ranks: Seq<nat>, top: nat) -> bool {
    &&& ranks.len() == parents.len()
    &&& forall|i: int| 0 <= i < parents.len() ==> (#[trigger] parents[i] as int) < parents.len()
    &&& forall|i: int| 0 <= i < parents.len() ==> #[trigger] ranks[i] < top
    &&& forall|i: int| 0 <= i < parents.len() && parents[i] != i
        ==> ranks[#[trigger] parents[i] as int] > ranks[i]
}

/// The root reached from node `i` by following parents.
pub open spec fn root_of(parents: Seq<usize>, ranks: Seq<nat>, top: nat, i: int) -> int
    decreases top - ranks[i],
    when ranked(parents, ranks, top) && 0 <= i < parents.len()
{
    if parents[i] == i {
        i
    } else {
        root_of(parents, ranks, top, parents[i] as int)
    }
}

proof fn lemma_root(parents: Seq<usize>, ranks: Seq<nat>, top: nat, i: int)
    requires
        ranked(parents, ranks, top),
        0 <= i < parents.len(),
    ensures
        0 <= root_of(parents, ranks, top, i) < parents.len(),
        parents[root_of(parents, ranks, top, i)] == root_of(parents, ranks, top, i),
        ranks[root_of(parents, ranks, top, i)] >= ranks[i],
        root_of(parents, ranks, top, i) != i ==> ranks[root_of(parents, ranks, top, i)] > ranks[i],
    decreases top - ranks[i],
{
    if parents[i] != i {
        lemma_root(parents, ranks, top, parents[i] as int);
    }
}

/// The nodes visited from node `i` by following parents, ending at its root.
pub open spec fn chain_of(parents: Seq<usize>, ranks: Seq<nat>, top: nat, i: int) -> Seq<int>
    decreases top - ranks[i],
    when ranked(parents, ranks, top) && 0 <= i < parents.len()
{
    if parents[i] == i {
        seq![i]
    } else {
        seq![i] + chain_of(parents, ranks, top, parents[i] as int)
    }
}

proof fn lemma_chain(parents: Seq<usize>, ranks: Seq<nat>, top: nat, i: int)
    requires
        ranked(parents, ranks, top),
        0 <= i < parents.len(),
    ensures
        chain_of(parents, ranks, top, i).len() > 0,
        chain_of(parents, ranks, top, i)[0] == i,
        chain_of(parents, ranks, top, i).last() == root_of(parents, ranks, top, i),
        forall|q: int| 0 <= q < chain_of(parents, ranks, top, i).len() - 1 ==>
            chain_of(parents, ranks, top, i)[q + 1] == parents[#[trigger] chain_of(parents, ranks, top, i)[q]] as int,
        forall|y: int| #[trigger] chain_of(parents, ranks, top, i).contains(y) ==>
            0 <= y < parents.len() && ranks[y] >= ranks[i],
    decreases top - ranks[i],
{
    let c = chain_of(parents, ranks, top, i);
    if parents[i] != i {
        let j = parents[i] as int;
        lemma_chain(parents, ranks, top, j);
        let d = chain_of(parents, ranks, top, j);
        assert(c == seq![i] + d);
        assert forall|q: int| 0 <= q < c.len() - 1 implies c[q + 1] == parents[#[trigger] c[q]] as int by {
            if q > 0 {
                assert(c[q] == d[q - 1]);
                assert(c[q + 1] == d[q]);
                assert(d[q - 1 + 1] == parents[d[q - 1]] as int);
            } else {
                assert(c[0] == i && c[1] == d[0]);
            }
        }
        assert forall|y: int| #[trigger] c.contains(y) implies 0 <= y < parents.len() && ranks[y] >= ranks[i] by {
            let w = choose|w: int| 0 <= w < c.len() && c[w] == y;
            if w > 0 {
                assert(d[w - 1] == y);
                assert(d.contains(y));
            }
        }
    }
}

/// One step of path compression along the chain from `k`: pointing `s` at the
/// root keeps the chain from `s`'s parent untouched and every node of the chain
/// before it pointing at the root.
proof fn lemma_compress_chain(parents0: Seq<usize>, ranks: Seq<nat>, top: nat, k: int, s: int, root: int, before: Seq<usize>)
    requires
        ranked(parents0, ranks, top),
        0 <= k < parents0.len(),
        0 <= s < parents0.len(),
        parents0[s] != s,
        0 <= root < parents0.len(),
        parents0[root] as int == root,
        before.len() == parents0.len(),
        forall|y: int| #[trigger] chain_of(parents0, ranks, top, s).contains(y) ==> chain_of(parents0, ranks, top, k).contains(y),
        forall|y: int| #[trigger] chain_of(parents0, ranks, top, s).contains(y) ==> before[y] == parents0[y],
        forall|y: int| #[trigger] chain_of(parents0, ranks, top, k).contains(y) && !chain_of(parents0, ranks, top, s).contains(y)
            ==> before[y] as int == root,
    ensures
        ({
            let t = parents0[s] as int;
            let after = before.update(s, root as usize);
            &&& forall|y: int| #[trigger] chain_of(parents0, ranks, top, t).contains(y) ==> chain_of(parents0, ranks, top, k).contains(y)
            &&& forall|y: int| #[trigger] chain_of(parents0, ranks, top, t).contains(y) ==> after[y] == parents0[y]
            &&& forall|y: int| #[trigger] chain_of(parents0, ranks, top, k).contains(y) && !chain_of(parents0, ranks, top, t).contains(y)
                ==> after[y] as int == root
        }),
{
    let t = parents0[s] as int;
    let after = before.update(s, root as usize);
    let cs = chain_of(parents0, ranks, top, s);
    let ct = chain_of(parents0, ranks, top, t);
    lemma_chain(parents0, ranks, top, t);
    lemma_chain(parents0, ranks, top, k);
    assert(cs =~= seq![s] + ct);
    assert forall|y: int| #[trigger] ct.contains(y) implies chain_of(parents0, ranks, top, k).contains(y) by {
        let w = choose|w: int| 0 <= w < ct.len() && ct[w] == y;
        assert(cs[w + 1] == y);
        assert(cs.contains(y));
    }
    assert forall|y: int| #[trigger] ct.contains(y) implies after[y] == parents0[y] by {
        let w = choose|w: int| 0 <= w < ct.len() && ct[w] == y;
        assert(cs[w + 1] == y);
        assert(cs.contains(y));
        assert(ranks[y] >= ranks[t]);
    }
    assert forall|y: int| #[trigger] chain_of(parents0, ranks, top, k).contains(y) && !ct.contains(y) implies after[y] as int == root by {
        if y == s {
            assert((root as usize) as int == root);
        } else {
            assert(after[y] == before[y]);
            if cs.contains(y) {
                let w = choose|w: int| 0 <= w < cs.len() && cs[w] == y;
                assert(w != 0);
                assert(ct[w - 1] == y);
            }
        }
    }
}

/// The root does not depend on which ranking witnesses termination.
proof fn lemma_root_rank_free(
    parents: Seq<usize>,
    r1: Seq<nat>,
    t1: nat,
    r2: Seq<nat>,
    t2: nat,
    i: int,
)
    requires
        ranked(parents, r1, t1),
        ranked(parents, r2, t2),
        0 <= i < parents.len(),
    ensures
        root_of(parents, r1, t1, i) == root_of(parents, r2, t2, i),
    decreases t1 - r1[i],
{
    if parents[i] != i {
        lemma_root_rank_free(parents, r1, t1, r2, t2, parents[i] as int);
    }
}

/// Pointing a non-root node straight at its root changes no node's root.
proof fn lemma_compress(parents: Seq<usize>, ranks: Seq<nat>, top: nat, s: int, y: int)
    requires
        ranked(parents, ranks, top),
        0 <= s < parents.len(),
        0 <= y < parents.len(),
        parents[s] != s,
    ensures
        ranked(parents.update(s, root_of(parents, ranks, top, s) as usize), ranks, top),
        root_of(parents.update(s, root_of(parents, ranks, top, s) as usize), ranks, top, y)
            == root_of(parents, ranks, top, y),
    decreases top - ranks[y],
{
    let r = root_of(parents, ranks, top, s);
    lemma_root(parents, ranks, top, s);
    lemma_root(parents, ranks, top, parents[s] as int);
    assert(parents[r] as int == r);
    assert((r as usize) as int == r);
    assert(r != s);
    let p2 = parents.update(s, r as usize);
    assert(ranked(p2, ranks, top));
    if y == s {
        assert(p2[r] as int == r);
        assert(root_of(p2, ranks, top, r) == r);
        assert(root_of(p2, ranks, top, s) == root_of(p2, ranks, top, r));
    } else if parents[y] != y {
        lemma_compress(parents, ranks, top, s, parents[y] as int);
    }
}

/// After pointing root `rj` at root `ri` (with `ri`'s rank raised), the nodes
/// whose root was `rj` have root `ri`; the others keep theirs.
proof fn lemma_link(
    parents: Seq<usize>,
    ranks: Seq<nat>,
    top: nat,
    ri: int,
    rj: int,
    ranks2: Seq<nat>,
    top2: nat,
    y: int,
)
    requires
        ranked(parents, ranks, top),
        0 <= ri < parents.len(),
        0 <= rj < parents.len(),
        ri != rj,
        parents[ri] == ri,
        parents[rj] == rj,
        ranked(parents.update(rj, ri as usize), ranks2, top2),
        ranked(parents, ranks2, top2),
        0 <= y < parents.len(),
    ensures
        root_of(parents.update(rj, ri as usize), ranks2, top2, y) == (if root_of(parents, ranks, top, y)
            == rj {
            ri
        } else {
            root_of(parents, ranks, top, y)
        }),
    decreases top2 - ranks2[y],
{
    assert(parents[ri] as int == ri);
    assert((ri as usize) as int == ri);
    let p2 = parents.update(rj, ri as usize);
    if y == rj {
        assert(p2[ri] as int == ri);
        assert(root_of(p2, ranks2, top2, ri) == ri);
        assert(root_of(p2, ranks2, top2, rj) == root_of(p2, ranks2, top2, ri));
    } else if parents[y] != y {
        lemma_link(parents, ranks, top, ri, rj, ranks2, top2, parents[y] as int);
    }
}

/// Exec equality of two keys whose type compares by value.
fn keys_equal<T: PartialEq>(x: &T, y: &T) -> (r: bool)
    requires
        obeys_concrete_eq::<T>(),
    ensures
        r == (*x == *y),
{
    proof {
        reveal(obeys_concrete_eq);
    }
    x.eq(y)
}

/// A disjoint-set forest over the keys given at construction.
pub struct UnionFind<T> {
    nodes: Vec<T>,
    parents: Vec<usize>,
    ranks: Ghost<Seq<nat>>,
    top: Ghost<nat>,
}

impl<T: Copy + PartialEq> UnionFind<T> {
    /// The forest is well formed: keys are distinct and every parent chain ends in a root.
    pub closed spec fn wf(&self) -> bool {
        &&& self.parents@.len() == self.nodes@.len()
        &&& ranked(self.parents@, self.ranks@, self.top@)
        &&& forall|a: int, b: int|
            0 <= a < b < self.nodes@.len() ==> #[trigger] self.nodes@[a] != #[trigger] self.nodes@[b]
    }

    /// The keys of the structure.
    pub closed spec fn keys(&self) -> Set<T> {
        Set::new(|x: T| self.nodes@.contains(x))
    }

    closed spec fn index_of(&self, x: T) -> int {
        choose|k: int| 0 <= k < self.nodes@.len() && self.nodes@[k] == x
    }

    /// The representative of each key.
    pub closed spec fn view(&self) -> Map<T, T> {
        Map::new(
            |x: T| self.nodes@.contains(x),
            |x: T| self.nodes@[root_of(self.parents@, self.ranks@, self.top@, self.index_of(x))],
        )
    }

    /// The key that `x` points at directly.
    pub closed spec fn parent(&self, x: T) -> T {
        self.nodes@[self.parents@[self.index_of(x)] as int]
    }

    /// The keys visited from `x` by following parents, ending at its representative.
    pub closed spec fn path(&self, x: T) -> Seq<T> {
        chain_of(self.parents@, self.ranks@, self.top@, self.index_of(x)).map_values(|k: int| self.nodes@[k])
    }

    /// A path starts at its key, steps from each key to its parent, and ends at the
    /// key's representative, which is its own parent.
    pub proof fn lemma_path(&self, x: T)
        requires
            self.wf(),
            self.keys().contains(x),
        ensures
            self.path(x).len() > 0,
            self.path(x)[0] == x,
            self.path(x).last() == self@[x],
            self.parent(self@[x]) == self@[x],
            forall|q: int| 0 <= q < self.path(x).len() - 1 ==> #[trigger] self.path(x)[q + 1] == self.parent(self.path(x)[q]),
    {
        let k = self.index_of(x);
        assert(self.nodes@.contains(x));
        lemma_chain(self.parents@, self.ranks@, self.top@, k);
        lemma_root(self.parents@, self.ranks@, self.top@, k);
        let c = chain_of(self.parents@, self.ranks@, self.top@, k);
        let r = root_of(self.parents@, self.ranks@, self.top@, k);
        self.lemma_index_of(r);
        assert(self.path(x).last() == self.nodes@[c.last()]);
        assert forall|q: int| 0 <= q < self.path(x).len() - 1 implies #[trigger] self.path(x)[q + 1] == self.parent(self.path(x)[q]) by {
            assert(c.contains(c[q]));
            self.lemma_index_of(c[q]);
        }
    }

    proof fn lemma_index_of(&self, k: int)
        requires
            self.wf(),
            0 <= k < self.nodes@.len(),
        ensures
            self.index_of(self.nodes@[k]) == k,
    {
        let x = self.nodes@[k];
        assert(self.nodes@[k] == x);
        let j = self.index_of(x);
        if j != k {
            if j < k {
                assert(self.nodes@[j] != self.nodes@[k]);
            } else {
                assert(self.nodes@[k] != self.nodes@[j]);
            }
        }
    }

    /// The representatives are the keys' own: finding a representative gives it back.
    pub proof fn lemma_find_idempotent(&self)
        requires
            self.wf(),
        ensures
            self@.dom() == self.keys(),
            forall|x: T| #[trigger] self@.contains_key(x) ==> self@.contains_key(self@[x]) && self@[self@[x]] == self@[x],
    {
        assert(self@.dom() =~= self.keys());
        assert forall|x: T| #[trigger] self@.contains_key(x) implies self@.contains_key(self@[x]) && self@[self@[x]] == self@[x] by {
            let k = self.index_of(x);
            let r = root_of(self.parents@, self.ranks@, self.top@, k);
            lemma_root(self.parents@, self.ranks@, self.top@, k);
            assert(self.nodes@.contains(self.nodes@[r]));
            self.lemma_index_of(r);
        }
    }

    /// Finds the position of a key by a linear scan.
    fn position(&self, x: T) -> (k: usize)
        requires
            self.wf(),
            obeys_concrete_eq::<T>(),
            self.keys().contains(x),
        ensures
            k < self.nodes@.len(),
            self.nodes@[k as int] == x,
            k as int == self.index_of(x),
    {
        let mut k: usize = 0;
        while k < self.nodes.len()
            invariant
                self.wf(),
                obeys_concrete_eq::<T>(),
                self.nodes@.contains(x),
                k <= self.nodes@.len(),
                forall|l: int| 0 <= l < k ==> self.nodes@[l] != x,
            decreases self.nodes@.len() - k,
        {
            if keys_equal(&self.nodes[k], &x) {
                proof {
                    self.lemma_index_of(k as int);
                }
                return k;
            }
            k += 1;
        }
        proof {
            let w = choose|l: int| 0 <= l < self.nodes@.len() && self.nodes@[l] == x;
            assert(self.nodes@[w] != x);
        }
        0
    }

    /// One singleton set per distinct key of `nodes`.
    pub fn new(nodes: &Vec<T>) -> (uf: UnionFind<T>)
        requires
            obeys_concrete_eq::<T>(),
        ensures
            uf.wf(),
            forall|x: T| uf.keys().contains(x) <==> nodes@.contains(x),
            uf@.dom() == uf.keys(),
            forall|x: T| #[trigger] uf@.contains_key(x) ==> uf@[x] == x,
    {
        let mut uf = UnionFind { nodes: Vec::new(), parents: Vec::new(), ranks: Ghost(Seq::empty()), top: Ghost(1) };
        let mut i: usize = 0;
        while i < nodes.len()
            invariant
                obeys_concrete_eq::<T>(),
                uf.wf(),
                i <= nodes@.len(),
                forall|x: T| uf.nodes@.contains(x) <==> nodes@.subrange(0, i as int).contains(x),
                forall|k: int| 0 <= k < uf.parents@.len() ==> #[trigger] uf.parents@[k] == k,
                uf.top@ == 1,
            decreases nodes@.len() - i,
        {
            let x = nodes[i];
            let ghost pre0 = nodes@.subrange(0, i as int);
            let ghost pre1 = nodes@.subrange(0, i + 1);
            let mut found = false;
            let mut k: usize = 0;
            while k < uf.nodes.len()
                invariant
                    obeys_concrete_eq::<T>(),
                    k <= uf.nodes@.len(),
                    found == (exists|l: int| 0 <= l < k && uf.nodes@[l] == x),
                decreases uf.nodes@.len() - k,
            {
                if keys_equal(&uf.nodes[k], &x) {
                    found = true;
                }
                k += 1;
            }
            proof {
                assert(pre1 =~= pre0.push(x));
            }
            if !found {
                let ghost old_nodes = uf.nodes@;
                let n = uf.nodes.len();
                uf.nodes.push(x);
                uf.parents.push(n);
                uf.ranks = Ghost(uf.ranks@.push(0));
                proof {
                    assert(uf.nodes@ == old_nodes.push(x));
                    assert(!old_nodes.contains(x));
                    assert forall|a: int, b: int|
                        0 <= a < b < uf.nodes@.len() implies #[trigger] uf.nodes@[a] != #[trigger] uf.nodes@[b] by {
                        if b == n {
                            assert(old_nodes.contains(old_nodes[a]));
                        }
                    }
                    assert forall|z: T| uf.nodes@.contains(z) <==> pre1.contains(z) by {
                        if uf.nodes@.contains(z) {
                            let w = choose|w: int| 0 <= w < uf.nodes@.len() && uf.nodes@[w] == z;
                            if w < n {
                                assert(old_nodes.contains(z));
                                let v = choose|v: int| 0 <= v < i && pre0[v] == z;
                                assert(pre1[v] == z);
                            } else {
                                assert(pre1[i as int] == z);
                            }
                        }
                        if pre1.contains(z) {
                            let v = choose|v: int| 0 <= v < i + 1 && pre1[v] == z;
                            if v < i {
                                assert(pre0[v] == z);
                                assert(old_nodes.contains(z));
                                let w = choose|w: int| 0 <= w < old_nodes.len() && old_nodes[w] == z;
                                assert(uf.nodes@[w] == z);
                            } else {
                                assert(uf.nodes@[n as int] == z);
                            }
                        }
                    }
                }
            } else {
                proof {
                    assert(uf.nodes@.contains(x));
                    assert forall|z: T| uf.nodes@.contains(z) <==> pre1.contains(z) by {
                        if uf.nodes@.contains(z) {
                            let v = choose|v: int| 0 <= v < i && pre0[v] == z;
                            assert(pre1[v] == z);
                        }
                        if pre1.contains(z) {
                            let v = choose|v: int| 0 <= v < i + 1 && pre1[v] == z;
                            if v < i {
                                assert(pre0[v] == z);
                            }
                        }
                    }
                }
            }
            i += 1;
        }
        proof {
            uf.lemma_find_idempotent();
            assert(nodes@.subrange(0, nodes@.len() as int) =~= nodes@);
            assert forall|x: T| #[trigger] uf@.contains_key(x) implies uf@[x] == x by {
                let k = uf.index_of(x);
                assert(uf.nodes@.contains(x));
                assert(uf.parents@[k] == k);
            }
        }
        uf
    }

    /// The representative of `i`; every node on the way is pointed straight at it.
    pub fn find(&mut self, i: T) -> (r: T)
        requires
            old(self).wf(),
            obeys_concrete_eq::<T>(),
            old(self).keys().contains(i),
        ensures
            final(self).wf(),
            final(self).keys() == old(self).keys(),
            final(self)@ == old(self)@,
            r == old(self)@[i],
            forall|y: T| #[trigger] old(self).path(i).contains(y) ==> final(self).parent(y) == r,
    {
        let k = self.position(i);
        let ghost parents0 = self.parents@;
        let ghost ranks = self.ranks@;
        let ghost top = self.top@;
        let ghost root = root_of(parents0, ranks, top, k as int);
        let mut p = k;
        while self.parents[p] != p
            invariant
                self.wf(),
                self.parents@ == parents0,
                self.ranks@ == ranks,
                self.top@ == top,
                0 <= p < self.parents@.len(),
                root_of(parents0, ranks, top, p as int) == root,
            decreases top - ranks[p as int],
        {
            p = self.parents[p];
        }
        let ghost chain = chain_of(parents0, ranks, top, k as int);
        proof {
            lemma_chain(parents0, ranks, top, k as int);
            lemma_root(parents0, ranks, top, k as int);
        }
        let mut s = k;
        while s != p
            invariant
                self.wf(),
                self.nodes@ == old(self).nodes@,
                ranked(parents0, ranks, top),
                parents0.len() == self.parents@.len(),
                k < parents0.len(),
                0 <= root < parents0.len(),
                parents0[root] == root,
                chain == chain_of(parents0, ranks, top, k as int),
                forall|y: int| #[trigger] chain_of(parents0, ranks, top, s as int).contains(y) ==> chain.contains(y),
                forall|y: int| #[trigger] chain_of(parents0, ranks, top, s as int).contains(y) ==> self.parents@[y] == parents0[y],
                forall|y: int| #[trigger] chain.contains(y) && !chain_of(parents0, ranks, top, s as int).contains(y)
                    ==> self.parents@[y] as int == root,
                self.ranks@ == ranks,
                self.top@ == top,
                0 <= s < self.parents@.len(),
                p as int == root,
                root_of(self.parents@, ranks, top, s as int) == root,
                forall|y: int| 0 <= y < self.parents@.len() ==>
                    root_of(self.parents@, ranks, top, y) == #[trigger] root_of(parents0, ranks, top, y),
            decreases top - ranks[s as int],
        {
            let t = self.parents[s];
            let ghost before = self.parents@;
            proof {
                lemma_chain(parents0, ranks, top, s as int);
                assert(chain_of(parents0, ranks, top, s as int).contains(s as int));
                assert(parents0[s as int] == t);
                assert(parents0[s as int] != s) by {
                    if parents0[s as int] == s {
                        assert(root_of(parents0, ranks, top, s as int) == s);
                    }
                }
                lemma_compress_chain(parents0, ranks, top, k as int, s as int, root, before);
                lemma_root(before, ranks, top, s as int);
                assert(before[s as int] != s);
                assert forall|y: int| 0 <= y < before.len() implies
                    root_of(before.update(s as int, p), ranks, top, y) == #[trigger] root_of(parents0, ranks, top, y) by {
                    lemma_compress(before, ranks, top, s as int, y);
                }
                lemma_compress(before, ranks, top, s as int, s as int);
            }
            self.parents[s] = p;
            proof {
                assert(self.parents@ == before.update(s as int, p));
                assert(root_of(before, ranks, top, t as int) == root);
                assert(root_of(self.parents@, ranks, top, t as int) == root_of(parents0, ranks, top, t as int));
                assert(root_of(before, ranks, top, t as int) == root_of(parents0, ranks, top, t as int));
            }
            s = t;
        }
        proof {
            assert(self@ =~= old(self)@);
            lemma_chain(parents0, ranks, top, p as int);
            assert(chain_of(parents0, ranks, top, p as int) =~= seq![p as int]);
            assert forall|y: T| #[trigger] old(self).path(i).contains(y) implies self.parent(y) == self.nodes@[p as int] by {
                let w = choose|w: int| 0 <= w < old(self).path(i).len() && old(self).path(i)[w] == y;
                let c = chain[w];
                assert(chain.contains(c));
                assert(y == self.nodes@[c]);
                self.lemma_index_of(c);
                if c == p as int {
                    assert(chain_of(parents0, ranks, top, p as int).contains(c));
                } else {
                    assert(!chain_of(parents0, ranks, top, p as int).contains(c));
                }
            }
        }
        self.nodes[p]
    }

    /// Joins the sets of `i` and `j`: the representative of `j` is pointed at the
    /// representative of `i`, which stays the representative of the joined set.
    pub fn union(&mut self, i: T, j: T)
        requires
            old(self).wf(),
            obeys_concrete_eq::<T>(),
            old(self).keys().contains(i),
            old(self).keys().contains(j),
        ensures
            final(self).wf(),
            final(self).keys() == old(self).keys(),
            final(self)@ == union_of(old(self)@, i, j),
    {
        let ghost start = *self;
        let i_parent = self.find(i);
        let j_parent = self.find(j);
        proof {
            self.lemma_find_idempotent();
        }
        let ri = self.position(i_parent);
        let rj = self.position(j_parent);
        proof {
            let ki = self.index_of(i);
            let kj = self.index_of(j);
            lemma_root(self.parents@, self.ranks@, self.top@, ki);
            lemma_root(self.parents@, self.ranks@, self.top@, kj);
            self.lemma_index_of(root_of(self.parents@, self.ranks@, self.top@, ki));
            self.lemma_index_of(root_of(self.parents@, self.ranks@, self.top@, kj));
        }
        if ri != rj {
            let ghost parents = self.parents@;
            let ghost ranks = self.ranks@;
            let ghost top = self.top@;
            let ghost new_rank: nat = if ranks[ri as int] > ranks[rj as int] { ranks[ri as int] } else { ranks[rj as int] + 1 };
            let ghost ranks2 = ranks.update(ri as int, new_rank);
            let ghost top2: nat = if new_rank + 1 > top { new_rank + 1 } else { top };
            self.parents[rj] = ri;
            self.ranks = Ghost(ranks2);
            self.top = Ghost(top2);
            proof {
                assert(self.parents@ == parents.update(rj as int, ri));
                assert(ranked(parents, ranks2, top2));
                assert(ranked(self.parents@, ranks2, top2));
                assert forall|y: T| #[trigger] start@.contains_key(y) implies self@[y] == (if start@[y] == start@[j] {
                    start@[i]
                } else {
                    start@[y]
                }) by {
                    let ky = self.index_of(y);
                    lemma_link(parents, ranks, top, ri as int, rj as int, ranks2, top2, ky);
                    lemma_root_rank_free(parents, ranks, top, ranks2, top2, ky);
                    lemma_root(parents, ranks, top, ky);
                    let ry = root_of(parents, ranks, top, ky);
                    if ry != rj {
                        if self.nodes@[ry] == self.nodes@[rj as int] {
                            if ry < rj {
                                assert(self.nodes@[ry] != self.nodes@[rj as int]);
                            } else {
                                assert(self.nodes@[rj as int] != self.nodes@[ry]);
                            }
                        }
                    }
                }
                assert(self@ =~= union_of(start@, i, j));
            }
        } else {
            proof {
                assert forall|y: T| #[trigger] start@.contains_key(y) implies self@[y] == (if start@[y] == start@[j] {
                    start@[i]
                } else {
                    start@[y]
                }) by {
                }
                assert(self@ =~= union_of(start@, i, j));
            }
        }
    }
}

/// The representatives after joining the set of `j` into the set of `i`.
pub open spec fn union_of<T>(m: Map<T, T>, i: T, j: T) -> Map<T, T> {
    Map::new(|y: T| m.contains_key(y), |y: T| if m[y] == m[j] { m[i] } else { m[y] })
}

/// After `union(i, j)` the two keys share the representative that `i` had.
pub proof fn lemma_union_joins<T>(m: Map<T, T>, i: T, j: T)
    requires
        m.contains_key(i),
        m.contains_key(j),
    ensures
        union_of(m, i, j)[i] == union_of(m, i, j)[j],
        union_of(m, i, j)[j] == m[i],
{
}

/// A union never separates keys that already shared a representative.
pub proof fn lemma_union_keeps_joined<T>(m: Map<T, T>, i: T, j: T, x: T, y: T)
    requires
        m.contains_key(x),
        m.contains_key(y),
        m[x] == m[y],
    ensures
        union_of(m, i, j)[x] == union_of(m, i, j)[y],
{
}

/// The representatives after the unions `ops`, in order.
pub open spec fn union_all<T>(m: Map<T, T>, ops: Seq<(T, T)>) -> Map<T, T>
    decreases ops.len(),
{
    if ops.len() == 0 {
        m
    } else {
        union_of(union_all(m, ops.drop_last()), ops.last().0, ops.last().1)
    }
}

proof fn lemma_union_all_dom<T>(m: Map<T, T>, ops: Seq<(T, T)>)
    ensures
        union_all(m, ops).dom() == m.dom(),
    decreases ops.len(),
{
    if ops.len() > 0 {
        lemma_union_all_dom(m, ops.drop_last());
        assert(union_all(m, ops).dom() =~= m.dom());
    }
}

/// Keys that share a representative after the first `k` unions still do after the first `l`.
proof fn lemma_union_all_keeps_joined<T>(m: Map<T, T>, ops: Seq<(T, T)>, k: int, l: int, x: T, y: T)
    requires
        0 <= k <= l <= ops.len(),
        m.contains_key(x),
        m.contains_key(y),
        union_all(m, ops.subrange(0, k))[x] == union_all(m, ops.subrange(0, k))[y],
    ensures
        union_all(m, ops.subrange(0, l))[x] == union_all(m, ops.subrange(0, l))[y],
    decreases l - k,
{
    if l > k {
        lemma_union_all_keeps_joined(m, ops, k, l - 1, x, y);
        let pre = ops.subrange(0, l);
        assert(pre.drop_last() =~= ops.subrange(0, l - 1));
        lemma_union_all_dom(m, ops.subrange(0, l - 1));
        lemma_union_keeps_joined(union_all(m, ops.subrange(0, l - 1)), pre.last().0, pre.last().1, x, y);
    }
}

/// After any sequence of unions over the keys that includes `union(a, b)` and
/// `union(b, c)`, in either order, `a` and `c` share a representative.
pub proof fn lemma_unions_transitive<T>(m: Map<T, T>, ops: Seq<(T, T)>, a: T, b: T, c: T, p: int, q: int)
    requires
        m.contains_key(a),
        m.contains_key(b),
        m.contains_key(c),
        forall|k: int| 0 <= k < ops.len() ==> m.contains_key(#[trigger] ops[k].0) && m.contains_key(ops[k].1),
        0 <= p < ops.len(),
        0 <= q < ops.len(),
        ops[p] == (a, b),
        ops[q] == (b, c),
    ensures
        union_all(m, ops)[a] == union_all(m, ops)[c],
{
    assert(ops.subrange(0, ops.len() as int) =~= ops);
    assert(ops.subrange(0, p + 1).drop_last() =~= ops.subrange(0, p));
    assert(ops.subrange(0, q + 1).drop_last() =~= ops.subrange(0, q));
    lemma_union_all_dom(m, ops.subrange(0, p));
    lemma_union_all_dom(m, ops.subrange(0, q));
    lemma_union_joins(union_all(m, ops.subrange(0, p)), a, b);
    lemma_union_joins(union_all(m, ops.subrange(0, q)), b, c);
    lemma_union_all_keeps_joined(m, ops, p + 1, ops.len() as int, a, b);
    lemma_union_all_keeps_joined(m, ops, q + 1, ops.len() as int, b, c);
}

} // verus!
