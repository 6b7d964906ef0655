use vstd::prelude::*;

verus! {

/// A disjoint-set structure over ids `0..n`, with `-1` standing for "no id".
pub trait UnionFind<T> {
    /// The structure is internally consistent.
    spec fn wf(&self) -> bool;

    /// `i` is a valid id of the structure.
    spec fn is_id(&self, i: T) -> bool;

    /// `i` may be passed to the operations: a valid id or a negative one.
    spec fn admits(&self, i: T) -> bool;

    /// The representative of `i`'s partition (`-1` for a negative `i`).
    spec fn rep(&self, i: T) -> T;

    /// `self` is `before` after a `find(i)`: every node walked from `i` that
    /// has a parent now points at the root, nothing else changed.
    spec fn compressed_from(&self, before: &Self, i: T) -> bool;

    /// `self` is `before` after a `merge(a, b)`: the paths walked from `a`
    /// and `b` are compressed, and `a`'s root now points at `b`'s root when
    /// the two differed.
    spec fn merged_from(&self, before: &Self, a: T, b: T) -> bool;

    /// Unions the partitions of `a` and `b`, attaching `a`'s root under `b`'s
    /// root. Returns false, changing nothing, when either id is negative or
    /// both already share a root.
    fn merge(&mut self, a: T, b: T) -> (r: bool)
        requires
            old(self).wf(),
            old(self).admits(a),
            old(self).admits(b),
        ensures
            final(self).wf(),
            final(self).merged_from(old(self), a, b),
            r == (old(self).is_id(a) && old(self).is_id(b) && old(self).rep(a) != old(self).rep(b)),
            forall|j: T| #[trigger] final(self).admits(j) == old(self).admits(j),
            forall|j: T| #[trigger] final(self).is_id(j) == old(self).is_id(j),
            forall|j: T|
                old(self).admits(j) ==> #[trigger] final(self).rep(j) == if r && old(self).rep(j)
                    == old(self).rep(a) {
                    old(self).rep(b)
                } else {
                    old(self).rep(j)
                },
    ;

    /// The representative of `i`'s partition, compressing the path walked.
    fn find(&mut self, i: T) -> (r: T)
        requires
            old(self).wf(),
            old(self).admits(i),
        ensures
            final(self).wf(),
            final(self).compressed_from(old(self), i),
            r == old(self).rep(i),
            forall|j: T| #[trigger] final(self).admits(j) == old(self).admits(j),
            forall|j: T| #[trigger] final(self).is_id(j) == old(self).is_id(j),
            forall|j: T| old(self).admits(j) ==> #[trigger] final(self).rep(j) == old(self).rep(j),
    ;

    /// Whether `i` is a valid id that is the root of its partition.
    fn is_root(&mut self, i: T) -> (r: bool)
        requires
            old(self).wf(),
            old(self).admits(i),
        ensures
            final(self).wf(),
            final(self).compressed_from(old(self), i),
            r == (old(self).is_id(i) && old(self).rep(i) == i),
            forall|j: T| #[trigger] final(self).admits(j) == old(self).admits(j),
            forall|j: T| #[trigger] final(self).is_id(j) == old(self).is_id(j),
            forall|j: T| old(self).admits(j) ==> #[trigger] final(self).rep(j) == old(self).rep(j),
    ;
}

/// The root reached from `i` by following `parent`, where each step must go to
/// a strictly higher `rank` below `bound`.
pub open spec fn root_of(parent: Seq<i32>, rank: Seq<nat>, bound: nat, i: int) -> int
    decreases bound - rank[i],
{
    if 0 <= i < parent.len() && i < rank.len() && 0 <= parent[i] < parent.len() && parent[i]
        < rank.len() && rank[i] < rank[parent[i] as int] && rank[parent[i] as int] < bound {
        root_of(parent, rank, bound, parent[i] as int)
    } else {
        i
    }
}

/// Node `k` is reached from `i` by following `parent` under the same rules
/// as `root_of`.
pub open spec fn on_path(parent: Seq<i32>, rank: Seq<nat>, bound: nat, i: int, k: int) -> bool
    decreases bound - rank[i],
{
    if k == i {
        true
    } else if 0 <= i < parent.len() && i < rank.len() && 0 <= parent[i] < parent.len() && parent[i]
        < rank.len() && rank[i] < rank[parent[i] as int] && rank[parent[i] as int] < bound {
        on_path(parent, rank, bound, parent[i] as int, k)
    } else {
        false
    }
}

/// Parent links over ids `0..n`; `-1` marks a root. A ghost rank that grows
/// strictly along every link keeps the forest acyclic.
pub struct DisjointSets {
    pub parent: Vec<i32>,
    pub rank: Ghost<Seq<nat>>,
    pub bound: Ghost<nat>,
}

impl DisjointSets {
    pub open spec fn len(&self) -> int {
        self.parent@.len() as int
    }

    pub open spec fn links_ok(&self) -> bool {
        forall|i: int|
            0 <= i < self.len() ==> {
                let p = #[trigger] self.parent@[i];
                p == -1 || (0 <= p < self.len() && self.rank@[i] < self.rank@[p as int])
            }
    }

    pub open spec fn ranks_ok(&self) -> bool {
        forall|i: int| 0 <= i < self.len() ==> #[trigger] self.rank@[i] < self.bound@
    }

    pub open spec fn root(&self, i: int) -> int {
        root_of(self.parent@, self.rank@, self.bound@, i)
    }

    pub open spec fn walks(&self, i: int, k: int) -> bool {
        on_path(self.parent@, self.rank@, self.bound@, i, k)
    }

    /// The parents after compressing the path walked from `i`.
    pub open spec fn compressed_parents(&self, after: Seq<i32>, i: int) -> bool {
        &&& after.len() == self.parent@.len()
        &&& forall|k: int|
            0 <= k < after.len() ==> #[trigger] after[k] == if self.walks(i, k) && self.parent@[k] != -1 {
                self.root(i) as i32
            } else {
                self.parent@[k]
            }
    }

    /// `n` singleton partitions, ids `0..n`.
    pub fn new(n: usize) -> (r: Self)
        requires
            n <= i32::MAX,
        ensures
            r.wf(),
            r.len() == n,
            forall|j: i32| 0 <= j < n ==> #[trigger] r.rep(j) == j,
    {
        let parent: Vec<i32> = vec![-1i32; n];
        let r = DisjointSets {
            parent,
            rank: Ghost(Seq::new(n as nat, |i: int| 0nat)),
            bound: Ghost(1),
        };
        assert forall|j: i32| 0 <= j < n implies #[trigger] r.rep(j) == j by {
            assert(r.parent@[j as int] == -1);
        }
        r
    }

    proof fn lemma_root_is_root(&self, i: int)
        requires
            self.wf(),
            0 <= i < self.len(),
        ensures
            0 <= self.root(i) < self.len(),
            self.parent@[self.root(i)] == -1,
            self.rank@[self.root(i)] >= self.rank@[i],
            self.parent@[i] != -1 ==> self.rank@[self.root(i)] > self.rank@[i],
        decreases self.bound@ - self.rank@[i],
    {
        let p = self.parent@[i];
        if p != -1 {
            assert(self.rank@[p as int] < self.bound@);
            self.lemma_root_is_root(p as int);
        }
    }

    /// Pointing `i` at its own root changes no id's root.
    proof fn lemma_shortcut(old_s: &Self, new_s: &Self, i: int, j: int)
        requires
            old_s.wf(),
            0 <= i < old_s.len(),
            0 <= j < old_s.len(),
            old_s.parent@[i] != -1,
            new_s.parent@ == old_s.parent@.update(i, old_s.root(i) as i32),
            new_s.rank == old_s.rank,
            new_s.bound == old_s.bound,
        ensures
            new_s.root(j) == old_s.root(j),
        decreases old_s.bound@ - old_s.rank@[j],
    {
        old_s.lemma_root_is_root(i);
        let p = old_s.parent@[j];
        if j == i {
            let r = old_s.root(i);
            assert(new_s.parent@[r] == -1);
            assert(new_s.root(r) == r);
        } else if p != -1 {
            assert(old_s.rank@[p as int] < old_s.bound@);
            Self::lemma_shortcut(old_s, new_s, i, p as int);
        }
    }

    /// Linking root `ra` under root `rb` sends `ra`'s partition to `rb`.
    proof fn lemma_link(old_s: &Self, new_s: &Self, ra: int, rb: int, j: int)
        requires
            old_s.wf(),
            new_s.wf(),
            0 <= ra < old_s.len(),
            0 <= rb < old_s.len(),
            ra != rb,
            old_s.parent@[ra] == -1,
            old_s.parent@[rb] == -1,
            new_s.parent@ == old_s.parent@.update(ra, rb as i32),
            forall|k: int| 0 <= k < old_s.len() && k != rb ==> new_s.rank@[k] == old_s.rank@[k],
            0 <= j < old_s.len(),
        ensures
            new_s.root(j) == if old_s.root(j) == ra {
                rb
            } else {
                old_s.root(j)
            },
        decreases old_s.bound@ - old_s.rank@[j],
    {
        let p = old_s.parent@[j];
        if j == ra {
            assert(new_s.root(rb) == rb);
        } else if p != -1 {
            assert(old_s.rank@[p as int] < old_s.bound@);
            Self::lemma_link(old_s, new_s, ra, rb, p as int);
        }
    }

    proof fn lemma_walks_to_root(&self, i: int)
        requires
            self.wf(),
            0 <= i < self.len(),
        ensures
            self.walks(i, self.root(i)),
        decreases self.bound@ - self.rank@[i],
    {
        let p = self.parent@[i];
        if p != -1 {
            assert(self.rank@[p as int] < self.bound@);
            self.lemma_walks_to_root(p as int);
        }
    }

    proof fn lemma_walk_same_root(&self, i: int, k: int)
        requires
            self.wf(),
            0 <= i < self.len(),
            self.walks(i, k),
        ensures
            0 <= k < self.len(),
            self.root(k) == self.root(i),
        decreases self.bound@ - self.rank@[i],
    {
        let p = self.parent@[i];
        if k != i {
            assert(self.rank@[p as int] < self.bound@);
            self.lemma_walk_same_root(p as int, k);
        }
    }

    proof fn lemma_walk_trans(&self, a: int, m: int, k: int)
        requires
            self.wf(),
            0 <= a < self.len(),
            self.walks(a, m),
            self.walks(m, k),
        ensures
            self.walks(a, k),
        decreases self.bound@ - self.rank@[a],
    {
        let p = self.parent@[a];
        if m != a {
            assert(self.rank@[p as int] < self.bound@);
            self.lemma_walk_trans(p as int, m, k);
        }
    }

    /// A walk after compressing `a`'s path is a walk before it.
    proof fn lemma_walk_after_sub(s0: &Self, s1: &Self, a: int, b: int, k: int)
        requires
            s0.wf(),
            s1.wf(),
            0 <= a < s0.len(),
            0 <= b < s0.len(),
            s0.compressed_parents(s1.parent@, a),
            s1.rank == s0.rank,
            s1.bound == s0.bound,
            s1.walks(b, k),
        ensures
            s0.walks(b, k),
        decreases s0.bound@ - s0.rank@[b],
    {
        if k != b {
            let p0 = s0.parent@[b];
            let p1 = s1.parent@[b];
            assert(s1.parent@[b] == if s0.walks(a, b) && s0.parent@[b] != -1 {
                s0.root(a) as i32
            } else {
                s0.parent@[b]
            });
            if s0.walks(a, b) && p0 != -1 {
                s0.lemma_walk_same_root(a, b);
                s0.lemma_root_is_root(a);
                let r = s0.root(a);
                assert(s1.parent@[r] == s0.parent@[r]);
                assert(s1.walks(r, k));
                assert(k == r);
                s0.lemma_walks_to_root(b);
            } else {
                assert(s0.rank@[p0 as int] < s0.bound@);
                Self::lemma_walk_after_sub(s0, s1, a, p0 as int, k);
            }
        }
    }

    /// A walk before compressing `a`'s path, to a node off that path with a
    /// parent, is still a walk after it.
    proof fn lemma_walk_after_sup(s0: &Self, s1: &Self, a: int, b: int, k: int)
        requires
            s0.wf(),
            s1.wf(),
            0 <= a < s0.len(),
            0 <= b < s0.len(),
            s0.compressed_parents(s1.parent@, a),
            s1.rank == s0.rank,
            s1.bound == s0.bound,
            s0.walks(b, k),
            !s0.walks(a, k),
        ensures
            s1.walks(b, k),
        decreases s0.bound@ - s0.rank@[b],
    {
        if k != b {
            let p0 = s0.parent@[b];
            assert(s0.rank@[p0 as int] < s0.bound@);
            if s0.walks(a, b) {
                s0.lemma_walk_trans(a, b, k);
            }
            assert(s1.parent@[b] == s0.parent@[b]);
            Self::lemma_walk_after_sup(s0, s1, a, p0 as int, k);
        }
    }

    /// Two finds compress both walked paths.
    proof fn lemma_two_finds(s0: &Self, sa: &Self, sb: &Self, a: int, b: int)
        requires
            s0.wf(),
            sa.wf(),
            0 <= a < s0.len(),
            0 <= b < s0.len(),
            s0.compressed_parents(sa.parent@, a),
            sa.rank == s0.rank,
            sa.bound == s0.bound,
            forall|j: int| 0 <= j < s0.len() ==> #[trigger] sa.root(j) == s0.root(j),
            sa.compressed_parents(sb.parent@, b),
        ensures
            forall|k: int|
                0 <= k < s0.len() ==> #[trigger] sb.parent@[k] == if (s0.walks(a, k) || s0.walks(b, k))
                    && s0.parent@[k] != -1 {
                    s0.root(k) as i32
                } else {
                    s0.parent@[k]
                },
    {
        assert forall|k: int| 0 <= k < s0.len() implies #[trigger] sb.parent@[k] == if (s0.walks(a, k)
            || s0.walks(b, k)) && s0.parent@[k] != -1 {
            s0.root(k) as i32
        } else {
            s0.parent@[k]
        } by {
            assert(sa.parent@[k] == if s0.walks(a, k) && s0.parent@[k] != -1 {
                s0.root(a) as i32
            } else {
                s0.parent@[k]
            });
            assert(sb.parent@[k] == if sa.walks(b, k) && sa.parent@[k] != -1 {
                sa.root(b) as i32
            } else {
                sa.parent@[k]
            });
            if sa.walks(b, k) {
                Self::lemma_walk_after_sub(s0, sa, a, b, k);
                s0.lemma_walk_same_root(b, k);
            }
            if s0.walks(a, k) {
                s0.lemma_walk_same_root(a, k);
                s0.lemma_root_is_root(a);
            } else if s0.walks(b, k) && s0.parent@[k] != -1 {
                Self::lemma_walk_after_sup(s0, sa, a, b, k);
                s0.lemma_walk_same_root(b, k);
            }
        }
    }

    fn find_root(&mut self, i: i32) -> (r: i32)
        requires
            old(self).wf(),
            0 <= i < old(self).len(),
        ensures
            final(self).wf(),
            r == old(self).root(i as int),
            final(self).len() == old(self).len(),
            final(self).rank == old(self).rank,
            final(self).bound == old(self).bound,
            forall|j: int| 0 <= j < old(self).len() ==> #[trigger] final(self).root(j) == old(self).root(j),
            old(self).compressed_parents(final(self).parent@, i as int),
        decreases old(self).bound@ - old(self).rank@[i as int],
    {
        let ghost s0 = *self;
        let p = self.parent[i as usize];
        if p == -1 {
            proof {
                assert forall|k: int| 0 <= k < s0.len() && s0.walks(i as int, k) implies k == i by {}
            }
            return i;
        }
        proof {
            assert(self.rank@[p as int] < self.bound@);
            self.lemma_root_is_root(i as int);
        }
        let r = self.find_root(p);
        let ghost mid = *self;
        proof {
            mid.lemma_root_is_root(i as int);
            mid.lemma_root_is_root(p as int);
        }
        self.parent.set(i as usize, r);
        proof {
            assert forall|j: int| 0 <= j < mid.len() implies #[trigger] self.root(j) == mid.root(j) by {
                Self::lemma_shortcut(&mid, self, i as int, j);
            }
            assert(self.links_ok());
            assert(s0.root(i as int) == s0.root(p as int));
            assert forall|k: int| 0 <= k < s0.len() && k != i implies s0.walks(i as int, k) == s0.walks(
                p as int,
                k,
            ) by {
                assert(s0.rank@[p as int] < s0.bound@);
            }
            assert forall|k: int| 0 <= k < s0.len() implies #[trigger] self.parent@[k] == if s0.walks(
                i as int,
                k,
            ) && s0.parent@[k] != -1 {
                s0.root(i as int) as i32
            } else {
                s0.parent@[k]
            } by {
                if k != i {
                    assert(self.parent@[k] == mid.parent@[k]);
                }
            }
        }
        r
    }
}

impl UnionFind<i32> for DisjointSets {
    open spec fn wf(&self) -> bool {
        &&& self.parent@.len() == self.rank@.len()
        &&& self.parent@.len() <= i32::MAX
        &&& self.links_ok()
        &&& self.ranks_ok()
    }

    open spec fn is_id(&self, i: i32) -> bool {
        0 <= i < self.len()
    }

    open spec fn admits(&self, i: i32) -> bool {
        i < 0 || i < self.len()
    }

    open spec fn compressed_from(&self, before: &Self, i: i32) -> bool {
        if i < 0 {
            self.parent@ == before.parent@
        } else {
            before.compressed_parents(self.parent@, i as int)
        }
    }

    open spec fn merged_from(&self, before: &Self, a: i32, b: i32) -> bool {
        if a < 0 || b < 0 {
            self.parent@ == before.parent@
        } else {
            &&& self.parent@.len() == before.parent@.len()
            &&& forall|k: int|
                0 <= k < before.len() ==> #[trigger] self.parent@[k] == if before.root(a as int)
                    != before.root(b as int) && k == before.root(a as int) {
                    before.root(b as int) as i32
                } else if (before.walks(a as int, k) || before.walks(b as int, k)) && before.parent@[k]
                    != -1 {
                    before.root(k) as i32
                } else {
                    before.parent@[k]
                }
        }
    }

    open spec fn rep(&self, i: i32) -> i32 {
        if i < 0 {
            -1i32
        } else {
            self.root(i as int) as i32
        }
    }

    fn find(&mut self, i: i32) -> (r: i32) {
        if i < 0 {
            return -1;
        }
        proof {
            self.lemma_root_is_root(i as int);
        }
        self.find_root(i)
    }

    fn merge(&mut self, a: i32, b: i32) -> (r: bool) {
        if a < 0 || b < 0 {
            return false;
        }
        let ghost s0 = *self;
        let a_parent = self.find_root(a);
        let ghost sa = *self;
        let b_parent = self.find_root(b);
        proof {
            Self::lemma_two_finds(&s0, &sa, self, a as int, b as int);
        }
        if a_parent == b_parent {
            return false;
        }
        let ghost s1 = *self;
        proof {
            s1.lemma_root_is_root(a as int);
            s1.lemma_root_is_root(b as int);
        }
        self.parent.set(a_parent as usize, b_parent);
        proof {
            let ra = a_parent as int;
            let rb = b_parent as int;
            let new_rank = if s1.rank@[rb] > s1.rank@[ra] {
                s1.rank@[rb]
            } else {
                s1.rank@[ra] + 1
            };
            self.rank = Ghost(s1.rank@.update(rb, new_rank));
            self.bound = Ghost(s1.bound@ + 1);
            assert forall|i: int| 0 <= i < self.len() implies {
                let p = #[trigger] self.parent@[i];
                p == -1 || (0 <= p < self.len() && self.rank@[i] < self.rank@[p as int])
            } by {
                if i != ra {
                    assert(s1.parent@[i] == self.parent@[i]);
                }
            }
            assert(self.links_ok());
            assert(self.ranks_ok());
            assert forall|j: int| 0 <= j < s1.len() implies #[trigger] self.root(j) == if s1.root(j)
                == ra {
                rb
            } else {
                s1.root(j)
            } by {
                Self::lemma_link(&s1, self, ra, rb, j);
            }
            assert forall|j: i32| s0.admits(j) implies #[trigger] self.rep(j) == if s0.rep(j) == s0.rep(a) {
                s0.rep(b)
            } else {
                s0.rep(j)
            } by {
                if j >= 0 {
                    s1.lemma_root_is_root(j as int);
                    Self::lemma_link(&s1, self, ra, rb, j as int);
                }
            }
        }
        true
    }

    fn is_root(&mut self, i: i32) -> (r: bool) {
        if i < 0 {
            return false;
        }
        proof {
            self.lemma_root_is_root(i as int);
        }
        let r = self.find_root(i);
        r == i
    }
}

/// The partition of `i` after merging `a` into `b`, as `merge` leaves it.
pub open spec fn rep_after_merge(s: DisjointSets, a: i32, b: i32, i: i32) -> i32 {
    if s.is_id(a) && s.is_id(b) && s.rep(i) == s.rep(a) {
        s.rep(b)
    } else {
        s.rep(i)
    }
}

/// Finding a representative twice gives the same id as finding it once.
pub proof fn lemma_find_idempotent(s: DisjointSets, a: i32)
    requires
        s.wf(),
        s.admits(a),
    ensures
        s.admits(s.rep(a)),
        s.is_id(a) ==> s.is_id(s.rep(a)),
        s.rep(s.rep(a)) == s.rep(a),
{
    if a >= 0 {
        s.lemma_root_is_root(a as int);
    }
}

/// After a merge of `a` and `b`, both ids have the same representative.
pub proof fn lemma_merge_joins(before: DisjointSets, after: DisjointSets, a: i32, b: i32)
    requires
        before.wf(),
        before.is_id(a),
        before.is_id(b),
        forall|j: i32| before.admits(j) ==> #[trigger] after.rep(j) == rep_after_merge(before, a, b, j),
    ensures
        after.rep(a) == after.rep(b),
{
    lemma_find_idempotent(before, b);
    assert(after.rep(a) == rep_after_merge(before, a, b, a));
    assert(after.rep(b) == rep_after_merge(before, a, b, b));
}

/// Merging `a` into `b` and merging `b` into `a` leave the same partition.
pub proof fn lemma_merge_commutes(s: DisjointSets, a: i32, b: i32, x: i32, y: i32)
    requires
        s.wf(),
        s.admits(a),
        s.admits(b),
        s.admits(x),
        s.admits(y),
    ensures
        (rep_after_merge(s, a, b, x) == rep_after_merge(s, a, b, y)) == (rep_after_merge(s, b, a, x)
            == rep_after_merge(s, b, a, y)),
{
}

/// Each partition has exactly one root: the representative of its members.
pub proof fn lemma_one_root_per_partition(s: DisjointSets, i: i32, r: i32)
    requires
        s.wf(),
        s.is_id(i),
    ensures
        s.is_id(s.rep(i)),
        s.rep(s.rep(i)) == s.rep(i),
        s.is_id(r) && s.rep(r) == r && s.rep(r) == s.rep(i) ==> r == s.rep(i),
{
    lemma_find_idempotent(s, i);
    s.lemma_root_is_root(i as int);
}

} // verus!
