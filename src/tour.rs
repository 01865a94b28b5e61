use vstd::prelude::*;

verus! {

/// `a` holds exactly the genes of `b`, each once, in some order.
pub open spec fn is_rearrangement(a: Seq<usize>, b: Seq<usize>) -> bool {
    &&& a.len() == b.len()
    &&& a.no_duplicates()
    &&& a.to_set() == b.to_set()
}

/// `t` visits every index of `0..n` exactly once.
pub open spec fn is_tour(t: Seq<usize>, n: nat) -> bool {
    is_rearrangement(t, Seq::new(n, |i: int| i as usize))
}

/// A sequence without duplicates has as many elements as its set.
pub proof fn lemma_distinct_len(s: Seq<usize>)
    requires
        s.no_duplicates(),
    ensures
        s.to_set().len() == s.len(),
        s.to_set().finite(),
{
    s.unique_seq_to_set();
    vstd::seq_lib::seq_to_set_is_finite(s);
}

/// Distinct indices below `n` number at most `n`.
pub proof fn lemma_distinct_indices_bounded(s: Seq<int>, n: int)
    requires
        0 <= n,
        s.no_duplicates(),
        forall|i: int| 0 <= i < s.len() ==> 0 <= #[trigger] s[i] < n,
    ensures
        s.len() <= n,
{
    s.unique_seq_to_set();
    vstd::set_lib::lemma_int_range(0, n);
    assert(s.to_set().subset_of(vstd::set_lib::set_int_range(0, n)));
    vstd::set_lib::lemma_len_subset(s.to_set(), vstd::set_lib::set_int_range(0, n));
}

/// Two duplicate-free sequences with no common element concatenate into a
/// duplicate-free sequence holding the genes of both.
pub proof fn lemma_concat_distinct(a: Seq<usize>, b: Seq<usize>)
    requires
        a.no_duplicates(),
        b.no_duplicates(),
        forall|x: usize| a.contains(x) ==> !b.contains(x),
    ensures
        (a + b).no_duplicates(),
        (a + b).to_set() == a.to_set().union(b.to_set()),
{
    let c = a + b;
    assert forall|i: int, j: int| 0 <= i < c.len() && 0 <= j < c.len() && i != j implies c[i]
        != c[j] by {
        if i < a.len() && j >= a.len() {
            assert(a.contains(c[i]));
            assert(b[j - a.len()] == c[j]);
        } else if j < a.len() && i >= a.len() {
            assert(a.contains(c[j]));
            assert(b[i - a.len()] == c[i]);
        }
    }
    assert forall|x: usize| c.contains(x) <==> a.contains(x) || b.contains(x) by {
        if c.contains(x) {
            let k = choose|k: int| 0 <= k < c.len() && c[k] == x;
            if k >= a.len() {
                assert(b[k - a.len()] == x);
            }
        }
        if b.contains(x) {
            let k = choose|k: int| 0 <= k < b.len() && b[k] == x;
            assert(c[k + a.len()] == x);
        }
        if a.contains(x) {
            let k = choose|k: int| 0 <= k < a.len() && a[k] == x;
            assert(c[k] == x);
        }
    }
    assert(c.to_set() =~= a.to_set().union(b.to_set()));
}

/// Whether `v` holds `x`.
pub fn contains(v: &Vec<usize>, x: usize) -> (r: bool)
    ensures
        r == v@.contains(x),
{
    let mut i: usize = 0;
    while i < v.len()
        invariant
            i <= v.len(),
            forall|j: int| 0 <= j < i ==> v@[j] != x,
        decreases v.len() - i,
    {
        if v[i] == x {
            return true;
        }
        i += 1;
    }
    false
}

/// The first position at which `v` holds `x`.
pub fn index_of(v: &Vec<usize>, x: usize) -> (r: usize)
    requires
        v@.contains(x),
    ensures
        r < v.len(),
        v@[r as int] == x,
        forall|j: int| 0 <= j < r ==> v@[j] != x,
{
    let mut i: usize = 0;
    while i < v.len()
        invariant
            i <= v.len(),
            v@.contains(x),
            forall|j: int| 0 <= j < i ==> v@[j] != x,
        decreases v.len() - i,
    {
        if v[i] == x {
            return i;
        }
        i += 1;
    }
    proof {
        let k = choose|k: int| 0 <= k < v@.len() && v@[k] == x;
        assert(v@[k] != x);
    }
    0
}

/// The genes of `source` that `excluded` does not hold, in their order in
/// `source`.
pub open spec fn genes_without(source: Seq<usize>, excluded: Seq<usize>) -> Seq<usize> {
    source.filter(|x: usize| !excluded.contains(x))
}

/// The genes of `source` that `excluded` does not hold, in their order in
/// `source`.
pub fn genes_not_in(source: &Vec<usize>, excluded: &Vec<usize>) -> (r: Vec<usize>)
    requires
        source@.no_duplicates(),
    ensures
        r@.no_duplicates(),
        forall|x: usize| r@.contains(x) <==> source@.contains(x) && !excluded@.contains(x),
        r@ == genes_without(source@, excluded@),
{
    let mut r: Vec<usize> = Vec::new();
    let mut i: usize = 0;
    while i < source.len()
        invariant
            i <= source.len(),
            source@.no_duplicates(),
            r@.no_duplicates(),
            forall|x: usize|
                r@.contains(x) <==> source@.subrange(0, i as int).contains(x)
                    && !excluded@.contains(x),
            r@ == source@.subrange(0, i as int).filter(|x: usize| !excluded@.contains(x)),
        decreases source.len() - i,
    {
        let x = source[i];
        let keep = !contains(excluded, x);
        let ghost prefix = source@.subrange(0, i as int);
        let ghost old_r = r@;
        proof {
            assert(source@.subrange(0, i + 1).drop_last() =~= prefix);
            reveal(Seq::filter);
            assert(!prefix.contains(x));
        }
        if keep {
            r.push(x);
        }
        i += 1;
        proof {
            let next = source@.subrange(0, i as int);
            assert(next =~= prefix.push(x));
            assert forall|y: usize| r@.contains(y) <==> next.contains(y) && !excluded@.contains(
                y,
            ) by {
                if next.contains(y) && y != x {
                    let k = choose|k: int| 0 <= k < next.len() && next[k] == y;
                    assert(prefix[k] == y);
                    assert(prefix.contains(y));
                }
                if keep {
                    assert(r@ == old_r.push(x));
                    if old_r.contains(y) {
                        let k = choose|k: int| 0 <= k < old_r.len() && old_r[k] == y;
                        assert(r@[k] == y);
                    }
                    if r@.contains(y) && y != x {
                        let k = choose|k: int| 0 <= k < r@.len() && r@[k] == y;
                        assert(old_r[k] == y);
                    }
                }
                if prefix.contains(y) {
                    let k = choose|k: int| 0 <= k < prefix.len() && prefix[k] == y;
                    assert(next[k] == y);
                }
                assert(next[prefix.len() as int] == x);
                if !keep {
                    assert(r@ == old_r);
                }
                if y == x {
                    assert(next.contains(x));
                    if keep {
                        assert(r@[old_r.len() as int] == x);
                    }
                }
            }
        }
    }
    proof {
        assert(source@.subrange(0, source.len() as int) =~= source@);
    }
    r
}


/// `s` rotated left by `k`: the genes from position `k` on, then those
/// before it.
pub open spec fn rotation(s: Seq<usize>, k: int) -> Seq<usize> {
    s.subrange(k, s.len() as int) + s.subrange(0, k)
}

/// A rotation of a duplicate-free sequence is a rearrangement of it.
proof fn lemma_rotation_rearranges(s: Seq<usize>, k: int)
    requires
        s.no_duplicates(),
        0 <= k < s.len(),
    ensures
        is_rearrangement(rotation(s, k), s),
{
    let a = s.subrange(k, s.len() as int);
    let b = s.subrange(0, k);
    let r = rotation(s, k);
    assert forall|x: usize| a.contains(x) implies !b.contains(x) by {
        let p = choose|p: int| 0 <= p < a.len() && a[p] == x;
        if b.contains(x) {
            let q = choose|q: int| 0 <= q < b.len() && b[q] == x;
            assert(s[p + k] == s[q]);
        }
    }
    lemma_concat_distinct(a, b);
    assert forall|x: usize| r.contains(x) <==> s.contains(x) by {
        assert(r.to_set().contains(x) == (a.to_set().contains(x) || b.to_set().contains(x)));
        if s.contains(x) {
            let p = choose|p: int| 0 <= p < s.len() && s[p] == x;
            if p >= k {
                assert(a[p - k] == x);
            } else {
                assert(b[p] == x);
            }
        }
        if a.contains(x) {
            let p = choose|p: int| 0 <= p < a.len() && a[p] == x;
            assert(s[p + k] == x);
        }
        if b.contains(x) {
            let p = choose|p: int| 0 <= p < b.len() && b[p] == x;
            assert(s[p] == x);
        }
    }
    assert(r.to_set() =~= s.to_set());
}

/// A tour of `n` points rotated to start at its gene `tour[k]` is again a
/// tour of the `n` points, and it begins with that gene.
pub proof fn lemma_rotated_tour(tour: Seq<usize>, k: int, n: nat)
    requires
        is_tour(tour, n),
        0 <= k < tour.len(),
    ensures
        is_tour(rotation(tour, k), n),
        rotation(tour, k)[0] == tour[k],
{
    lemma_rotation_rearranges(tour, k);
}

/// Rotates `tour` left so that it starts at `start`: the genes from the
/// first occurrence of `start` on, followed by those before it.
pub fn rotate_to_start(tour: &Vec<usize>, start: usize) -> (r: Vec<usize>)
    requires
        tour@.contains(start),
    ensures
        r@.len() == tour@.len(),
        r@[0] == start,
        exists|k: int|
            0 <= k < tour@.len() && tour@[k] == start && r@ == rotation(tour@, k) && forall|j: int|
                0 <= j < k ==> tour@[j] != start,
        tour@.no_duplicates() ==> is_rearrangement(r@, tour@),
{
    let offset = index_of(tour, start);
    let n = tour.len();
    let mut r: Vec<usize> = Vec::new();
    let mut i: usize = offset;
    while i < n
        invariant
            offset <= i <= n == tour.len(),
            r@ == tour@.subrange(offset as int, i as int),
        decreases n - i,
    {
        r.push(tour[i]);
        i += 1;
        proof {
            assert(r@ =~= tour@.subrange(offset as int, i as int));
        }
    }
    let mut j: usize = 0;
    while j < offset
        invariant
            offset < n == tour.len(),
            j <= offset,
            r@ == tour@.subrange(offset as int, n as int) + tour@.subrange(0, j as int),
        decreases offset - j,
    {
        r.push(tour[j]);
        j += 1;
        proof {
            assert(r@ =~= tour@.subrange(offset as int, n as int) + tour@.subrange(0, j as int));
        }
    }
    proof {
        assert(r@ == rotation(tour@, offset as int));
        assert(r@[0] == tour@[offset as int]);
        if tour@.no_duplicates() {
            lemma_rotation_rearranges(tour@, offset as int);
        }
    }
    r
}

} // verus!
