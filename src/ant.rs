use vstd::prelude::*;

use crate::tour::{is_tour, lemma_distinct_len};

verus! {

/// The walk of one ant of the colony: the points visited so far, in order,
/// from the start point on.
pub struct AntWalk {
    path: Vec<usize>,
    visited: Vec<bool>,
}

/// Distinct indices below `n`, `n` of them, form a tour of `n` points.
proof fn lemma_full_path_is_tour(path: Seq<usize>, n: nat)
    requires
        n <= usize::MAX,
        path.len() == n,
        path.no_duplicates(),
        forall|i: int| 0 <= i < path.len() ==> #[trigger] path[i] < n,
    ensures
        is_tour(path, n),
{
    let id = Seq::new(n, |i: int| i as usize);
    assert forall|i: int, j: int| 0 <= i < id.len() && 0 <= j < id.len() && i != j implies id[i]
        != id[j] by {
        assert(id[i] == i as usize && id[j] == j as usize);
    }
    lemma_distinct_len(id);
    lemma_distinct_len(path);
    assert forall|x: usize| path.contains(x) implies id.contains(x) by {
        let k = choose|k: int| 0 <= k < path.len() && path[k] == x;
        assert(id[x as int] == x);
    }
    assert(path.to_set().subset_of(id.to_set()));
    vstd::set_lib::lemma_subset_equality(path.to_set(), id.to_set());
}

impl AntWalk {
    /// The points visited so far, in order.
    pub closed spec fn path_view(&self) -> Seq<usize> {
        self.path@
    }

    /// The number of points of the instance.
    pub closed spec fn point_count(&self) -> nat {
        self.visited@.len()
    }

    /// The path starts somewhere, visits each point at most once, and the
    /// visited marks match it.
    pub closed spec fn wf(&self) -> bool {
        &&& self.path@.len() >= 1
        &&& self.path@.no_duplicates()
        &&& forall|i: int| 0 <= i < self.path@.len() ==> #[trigger] self.path@[i] < self.visited@.len()
        &&& forall|x: usize|
            x < self.visited@.len() ==> (self.visited@[x as int] <==> self.path@.contains(x))
    }

    /// A walk of a colony over `point_count` points that stands at `start`.
    pub fn new(point_count: usize, start: usize) -> (r: Self)
        requires
            start < point_count,
        ensures
            r.wf(),
            r.point_count() == point_count,
            r.path_view() == seq![start],
    {
        let mut visited: Vec<bool> = Vec::new();
        let mut i: usize = 0;
        while i < point_count
            invariant
                i <= point_count,
                visited.len() == i,
                forall|k: int| 0 <= k < i ==> visited@[k] == (k == start),
            decreases point_count - i,
        {
            visited.push(i == start);
            i += 1;
        }
        let mut path: Vec<usize> = Vec::new();
        path.push(start);
        let r = AntWalk { path, visited };
        proof {
            assert forall|x: usize| x < r.visited@.len() implies (r.visited@[x as int]
                <==> r.path@.contains(x)) by {
                if x == start {
                    assert(r.path@[0] == x);
                }
            }
        }
        r
    }

    /// The point where the ant stands.
    pub fn current(&self) -> (r: usize)
        requires
            self.wf(),
        ensures
            r == self.path_view().last(),
            r < self.point_count(),
    {
        self.path[self.path.len() - 1]
    }

    /// Whether the ant has visited `point`.
    pub fn is_visited(&self, point: usize) -> (r: bool)
        requires
            self.wf(),
            point < self.point_count(),
        ensures
            r == self.path_view().contains(point),
    {
        self.visited[point]
    }

    /// The number of points the ant has visited.
    pub fn visited_count(&self) -> (r: usize)
        requires
            self.wf(),
        ensures
            r == self.path_view().len(),
    {
        self.path.len()
    }

    /// A path of a well-formed walk has at most as many points as the
    /// instance, and where it has as many, it is a tour of them.
    proof fn lemma_path_bounded(&self)
        requires
            self.wf(),
        ensures
            self.path@.len() <= self.visited@.len(),
            self.path@.len() == self.visited@.len() ==> is_tour(self.path@, self.visited@.len()),
    {
        let ints = self.path@.map_values(|x: usize| x as int);
        assert forall|i: int, j: int| 0 <= i < ints.len() && 0 <= j < ints.len() && i != j implies ints[i] != ints[j] by {
            assert(self.path@[i] != self.path@[j]);
        }
        crate::tour::lemma_distinct_indices_bounded(ints, self.visited@.len() as int);
        if self.path@.len() == self.visited@.len() {
            assert(self.visited@.len() == self.visited.len());
            lemma_full_path_is_tour(self.path@, self.visited@.len());
        }
    }

    /// Whether every point has been visited.
    pub fn is_complete(&self) -> (r: bool)
        requires
            self.wf(),
        ensures
            r == (self.path_view().len() == self.point_count()),
            r ==> is_tour(self.path_view(), self.point_count()),
    {
        proof {
            self.lemma_path_bounded();
        }
        self.path.len() == self.visited.len()
    }

    /// Moves the ant to the unvisited point `next`.
    pub fn visit(&mut self, next: usize)
        requires
            old(self).wf(),
            next < old(self).point_count(),
            !old(self).path_view().contains(next),
        ensures
            final(self).wf(),
            final(self).point_count() == old(self).point_count(),
            final(self).path_view() == old(self).path_view().push(next),
    {
        let ghost old_path = self.path@;
        self.path.push(next);
        self.visited.set(next, true);
        proof {
            assert forall|x: usize| x < self.visited@.len() implies (self.visited@[x as int]
                <==> self.path@.contains(x)) by {
                if x == next {
                    assert(self.path@[old_path.len() as int] == x);
                } else if old_path.contains(x) {
                    let k = choose|k: int| 0 <= k < old_path.len() && old_path[k] == x;
                    assert(self.path@[k] == x);
                } else if self.path@.contains(x) {
                    let k = choose|k: int| 0 <= k < self.path@.len() && self.path@[k] == x;
                    assert(old_path[k] == x);
                }
            }
        }
    }

    /// The tour of a complete walk, from the start point on; the ant returns
    /// from its last point to the first.
    pub fn tour(&self) -> (r: Vec<usize>)
        requires
            self.wf(),
            self.path_view().len() == self.point_count(),
        ensures
            r@ == self.path_view(),
            is_tour(r@, self.point_count()),
    {
        proof {
            self.lemma_path_bounded();
        }
        let mut r: Vec<usize> = Vec::new();
        let mut i: usize = 0;
        while i < self.path.len()
            invariant
                i <= self.path.len(),
                r@ == self.path@.subrange(0, i as int),
            decreases self.path.len() - i,
        {
            r.push(self.path[i]);
            i += 1;
            proof {
                assert(r@ =~= self.path@.subrange(0, i as int));
            }
        }
        proof {
            assert(self.path@.subrange(0, self.path.len() as int) =~= self.path@);
        }
        r
    }
}

} // verus!
