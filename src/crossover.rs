use vstd::prelude::*;

use crate::tour::{
    genes_not_in, genes_without, index_of, is_rearrangement, lemma_concat_distinct,
    lemma_distinct_indices_bounded, lemma_distinct_len,
};

verus! {

/// Requirements on a pair of parents: two duplicate-free, non-empty
/// arrangements of one gene set.
pub open spec fn parents_compatible(parent1: Seq<usize>, parent2: Seq<usize>) -> bool {
    &&& parent1.len() >= 1
    &&& parent1.no_duplicates()
    &&& parent2.no_duplicates()
    &&& parent1.to_set() == parent2.to_set()
}

/// The position of gene `x` in `s`.
pub open spec fn position_of(s: Seq<usize>, x: usize) -> int {
    choose|i: int| 0 <= i < s.len() && s[i] == x
}

/// One link of the walk: the position in `parent1` of the gene that
/// `parent2` holds at position `i`.
pub open spec fn link(parent1: Seq<usize>, parent2: Seq<usize>, i: int) -> int {
    position_of(parent1, parent2[i])
}

/// The position in `parent2` of the gene that the walk gives the first
/// offspring at its step `k`.
pub open spec fn walk_position(parent1: Seq<usize>, parent2: Seq<usize>, k: nat) -> int
    decreases k,
{
    if k == 0 {
        0
    } else {
        let p = walk_position(parent1, parent2, (k - 1) as nat);
        link(parent1, parent2, link(parent1, parent2, link(parent1, parent2, p)))
    }
}

/// The gene of the first offspring at step `k` of the walk.
pub open spec fn walk_gene_first(parent1: Seq<usize>, parent2: Seq<usize>, k: nat) -> usize {
    parent2[walk_position(parent1, parent2, k)]
}

/// The gene of the second offspring at step `k` of the walk.
pub open spec fn walk_gene_second(parent1: Seq<usize>, parent2: Seq<usize>, k: nat) -> usize {
    let p = walk_position(parent1, parent2, k);
    parent2[link(parent1, parent2, link(parent1, parent2, p))]
}

/// The walk ends at step `k`: the second offspring has reached the first
/// gene of `parent1`.
pub open spec fn walk_stops(parent1: Seq<usize>, parent2: Seq<usize>, k: nat) -> bool {
    walk_gene_second(parent1, parent2, k) == parent1[0]
}

/// The walk takes `m` steps: it ends at step `m - 1` and not before.
pub open spec fn is_walk_len(parent1: Seq<usize>, parent2: Seq<usize>, m: nat) -> bool {
    &&& m >= 1
    &&& walk_stops(parent1, parent2, (m - 1) as nat)
    &&& forall|k: nat| k < m - 1 ==> !#[trigger] walk_stops(parent1, parent2, k)
}

/// The number of steps of the walk.
pub open spec fn walk_len(parent1: Seq<usize>, parent2: Seq<usize>) -> nat {
    choose|m: nat| is_walk_len(parent1, parent2, m)
}

/// The two offspring as the walk leaves them.
pub open spec fn walk_offspring(parent1: Seq<usize>, parent2: Seq<usize>) -> (Seq<usize>, Seq<
    usize,
>) {
    let m = walk_len(parent1, parent2);
    (
        Seq::new(m, |k: int| walk_gene_first(parent1, parent2, k as nat)),
        Seq::new(m, |k: int| walk_gene_second(parent1, parent2, k as nat)),
    )
}

/// The operator on sequences, recursing on the remainders at most as deep
/// as `fuel` allows. A remainder is always shorter than its parents, so the
/// fuel that [`breed_spec`] gives never runs out on compatible parents.
pub open spec fn breed_rec(parent1: Seq<usize>, parent2: Seq<usize>, fuel: nat) -> (Seq<usize>, Seq<
    usize,
>)
    decreases fuel,
{
    let walked = walk_offspring(parent1, parent2);
    let first = walked.0 + genes_without(walked.1, walked.0);
    let second = walked.1 + genes_without(walked.0, walked.1);
    let rest1 = genes_without(parent1, second);
    let rest2 = genes_without(parent2, first);
    if first.len() == parent1.len() || rest1.len() >= fuel {
        (first, second)
    } else {
        let tails = breed_rec(rest1, rest2, rest1.len());
        (first + tails.0, second + tails.1)
    }
}

/// The two offspring of the order-based crossover of `parent1` and
/// `parent2`.
pub open spec fn breed_spec(parent1: Seq<usize>, parent2: Seq<usize>) -> (Seq<usize>, Seq<usize>) {
    breed_rec(parent1, parent2, parent1.len())
}

/// In a duplicate-free sequence, the position of a gene is where it stands.
proof fn lemma_position_of(s: Seq<usize>, i: int)
    requires
        s.no_duplicates(),
        0 <= i < s.len(),
    ensures
        position_of(s, s[i]) == i,
{
    let j = position_of(s, s[i]);
    assert(0 <= j < s.len() && s[j] == s[i]);
}

/// The cycle walk of the operator: starts the first offspring with the first
/// gene of `parent2`, then alternately extends the second and the first
/// offspring until the second one reaches the first gene of `parent1`.
/// Both results are duplicate-free and hold genes of the parents only.
#[verifier::rlimit(80)]
fn cycle_walk(parent1: &Vec<usize>, parent2: &Vec<usize>) -> (r: (Vec<usize>, Vec<usize>))
    requires
        parents_compatible(parent1@, parent2@),
        parent1.len() == parent2.len(),
    ensures
        r.0.len() >= 1,
        r.0@[0] == parent2@[0],
        r.0@.no_duplicates(),
        r.1@.no_duplicates(),
        forall|x: usize| r.0@.contains(x) ==> parent1@.contains(x),
        forall|x: usize| r.1@.contains(x) ==> parent1@.contains(x),
        (r.0@, r.1@) == walk_offspring(parent1@, parent2@),
{
    let n = parent1.len();
    let ghost p1 = parent1@;
    let ghost p2 = parent2@;
    let mut offspring1: Vec<usize> = Vec::new();
    let mut offspring2: Vec<usize> = Vec::new();
    offspring1.push(parent2[0]);
    let mut current: usize = 0;
    // positions in parent2 of the genes of offspring1, and the two
    // intermediate positions of each step of the walk
    let ghost mut steps: Seq<int> = seq![0int];
    let ghost mut hops1: Seq<int> = Seq::empty();
    let ghost mut hops2: Seq<int> = Seq::empty();
    loop
        invariant_except_break
            steps.len() == offspring1.len() == offspring2.len() + 1,
            hops1.len() == hops2.len() == offspring2.len(),
            current == steps.last(),
        invariant
            n == p1.len() == p2.len(),
            p1 == parent1@,
            p2 == parent2@,
            parents_compatible(p1, p2),
            1 <= steps.len() <= n,
            steps[0] == 0,
            offspring1@[0] == p2[0],
            hops1.len() == hops2.len() == offspring2.len(),
            hops2.len() <= steps.len() <= hops2.len() + 1,
            steps.len() == offspring1.len(),
            forall|i: int| 0 <= i < steps.len() ==> 0 <= #[trigger] steps[i] < n,
            forall|i: int| 0 <= i < steps.len() ==> offspring1@[i] == p2[#[trigger] steps[i]],
            forall|i: int| 1 <= i < steps.len() ==> #[trigger] steps[i] != 0,
            steps.no_duplicates(),
            forall|i: int|
                0 <= i < hops2.len() ==> 0 <= #[trigger] hops1[i] < n && p1[hops1[i]] == p2[steps[i]],
            forall|i: int|
                0 <= i < hops2.len() ==> 0 <= #[trigger] hops2[i] < n && p1[hops2[i]] == p2[hops1[i]]
                    && offspring2@[i] == p2[hops2[i]],
            forall|i: int|
                1 <= i < steps.len() && i <= hops2.len() ==> p1[#[trigger] steps[i]] == p2[hops2[i - 1]],
            hops2.no_duplicates(),
            offspring1@.no_duplicates(),
            offspring2@.no_duplicates(),
            forall|k: int| 0 <= k < steps.len() ==> #[trigger] steps[k] == walk_position(p1, p2, k as nat),
            forall|k: int|
                0 <= k < hops2.len() ==> #[trigger] hops1[k] == link(p1, p2, steps[k]) && hops2[k] == link(
                    p1,
                    p2,
                    hops1[k],
                ),
            forall|k: nat| k + 1 < steps.len() ==> !#[trigger] walk_stops(p1, p2, k),
        ensures
            offspring1.len() >= 1,
            offspring1@[0] == p2[0],
            offspring1@.no_duplicates(),
            offspring2@.no_duplicates(),
            forall|i: int| 0 <= i < offspring1.len() ==> p1.contains(#[trigger] offspring1@[i]),
            forall|i: int| 0 <= i < offspring2.len() ==> p1.contains(#[trigger] offspring2@[i]),
            offspring1.len() == offspring2.len(),
            forall|k: int|
                0 <= k < offspring1.len() ==> #[trigger] offspring1@[k] == walk_gene_first(
                    p1,
                    p2,
                    k as nat,
                ),
            forall|k: int|
                0 <= k < offspring2.len() ==> #[trigger] offspring2@[k] == walk_gene_second(
                    p1,
                    p2,
                    k as nat,
                ),
            forall|k: nat| k + 1 < offspring1.len() ==> !#[trigger] walk_stops(p1, p2, k),
            walk_stops(p1, p2, (offspring1.len() - 1) as nat),
        decreases n - offspring1.len(),
    {
        assert(p2.to_set().contains(p2[current as int]));
        let a = index_of(parent1, parent2[current]);
        assert(p2.to_set().contains(p2[a as int]));
        let b = index_of(parent1, parent2[a]);
        let gene = parent2[b];
        proof {
            lemma_position_of(p1, a as int);
            lemma_position_of(p1, b as int);
            assert(a == link(p1, p2, current as int));
            assert(b == link(p1, p2, a as int));
            // the new position of the walk is not yet taken
            assert forall|j: int| 0 <= j < hops2.len() implies hops2[j] != b by {
                if hops2[j] == b {
                    assert(p2[hops1[j]] == p2[a as int]);
                    assert(hops1[j] == a);
                    assert(p2[steps[j]] == p2[current as int]);
                    assert(steps[j] == steps[steps.len() - 1]);
                }
            }
            let hops2_next = hops2.push(b as int);
            assert forall|i: int, j: int|
                0 <= i < hops2_next.len() && 0 <= j < hops2_next.len() && i != j implies hops2_next[i] != hops2_next[j] by {
                if i < hops2.len() && j < hops2.len() {
                    assert(hops2[i] != hops2[j]);
                }
            }
            let o2 = offspring2@.push(gene);
            assert forall|i: int, j: int|
                0 <= i < o2.len() && 0 <= j < o2.len() && i != j implies o2[i] != o2[j] by {
                if i < hops2.len() && j < hops2.len() {
                    assert(offspring2@[i] != offspring2@[j]);
                } else {
                    assert(hops2_next[i] != hops2_next[j]);
                    assert(o2[i] == p2[hops2_next[i]]);
                    assert(o2[j] == p2[hops2_next[j]]);
                }
            }
        }
        offspring2.push(gene);
        proof {
            hops1 = hops1.push(a as int);
            hops2 = hops2.push(b as int);
        }
        if gene == parent1[0] {
            proof {
                let last = (steps.len() - 1) as nat;
                assert(steps[last as int] == walk_position(p1, p2, last));
                assert(walk_stops(p1, p2, last));
                assert forall|k: int| 0 <= k < offspring1.len() implies #[trigger] offspring1@[k]
                    == walk_gene_first(p1, p2, k as nat) by {
                    assert(steps[k] == walk_position(p1, p2, k as nat));
                }
                assert forall|k: int| 0 <= k < offspring2.len() implies #[trigger] offspring2@[k]
                    == walk_gene_second(p1, p2, k as nat) by {
                    assert(steps[k] == walk_position(p1, p2, k as nat));
                    assert(hops1[k] == link(p1, p2, steps[k]));
                }
                assert forall|i: int| 0 <= i < offspring1.len() implies p1.contains(
                    #[trigger] offspring1@[i],
                ) by {
                    assert(p2.to_set().contains(p2[steps[i]]));
                }
                assert forall|i: int| 0 <= i < offspring2.len() implies p1.contains(
                    #[trigger] offspring2@[i],
                ) by {
                    assert(p2.to_set().contains(p2[hops2[i]]));
                }
            }
            break ;
        }
        assert(p2.to_set().contains(gene));
        let next = index_of(parent1, gene);
        proof {
            lemma_position_of(p1, next as int);
            let last = (steps.len() - 1) as nat;
            assert(steps[last as int] == walk_position(p1, p2, last));
            assert(next == walk_position(p1, p2, last + 1));
            assert(!walk_stops(p1, p2, last));
            assert(next != 0);
            assert forall|j: int| 0 <= j < steps.len() implies steps[j] != next by {
                if j >= 1 && steps[j] == next {
                    assert(p1[steps[j]] == p2[hops2[j - 1]]);
                    assert(p2[hops2[j - 1]] == p2[b as int]);
                    assert(hops2[j - 1] == hops2[hops2.len() - 1]);
                }
            }
            let steps_next = steps.push(next as int);
            assert forall|i: int, j: int|
                0 <= i < steps_next.len() && 0 <= j < steps_next.len() && i != j implies steps_next[i] != steps_next[j] by {
                if i < steps.len() && j < steps.len() {
                    assert(steps[i] != steps[j]);
                }
            }
            lemma_distinct_indices_bounded(steps_next, n as int);
            let o1 = offspring1@.push(parent2@[next as int]);
            assert forall|i: int, j: int|
                0 <= i < o1.len() && 0 <= j < o1.len() && i != j implies o1[i] != o1[j] by {
                if i < steps.len() && j < steps.len() {
                    assert(offspring1@[i] != offspring1@[j]);
                } else {
                    assert(steps_next[i] != steps_next[j]);
                    assert(o1[i] == p2[steps_next[i]]);
                    assert(o1[j] == p2[steps_next[j]]);
                }
            }
        }
        offspring1.push(parent2[next]);
        current = next;
        proof {
            steps = steps.push(next as int);
        }
    }
    proof {
        let m = offspring1.len() as nat;
        let w = walk_len(p1, p2);
        assert(is_walk_len(p1, p2, m));
        assert(is_walk_len(p1, p2, w));
        if w < m {
            assert(!walk_stops(p1, p2, (w - 1) as nat));
        }
        if m < w {
            assert(!walk_stops(p1, p2, (m - 1) as nat));
        }
        assert(offspring1@ =~= walk_offspring(p1, p2).0);
        assert(offspring2@ =~= walk_offspring(p1, p2).1);
        assert forall|x: usize| offspring1@.contains(x) implies parent1@.contains(x) by {
            let k = choose|k: int| 0 <= k < offspring1@.len() && offspring1@[k] == x;
            assert(p1.contains(offspring1@[k]));
        }
        assert forall|x: usize| offspring2@.contains(x) implies parent1@.contains(x) by {
            let k = choose|k: int| 0 <= k < offspring2@.len() && offspring2@[k] == x;
            assert(p1.contains(offspring2@[k]));
        }
    }
    (offspring1, offspring2)
}


/// Order-based crossover of two parent tours.
///
/// The first offspring starts with the first gene of `parent2`; the cycle
/// walk fills both offspring, each gene held by only one of them is appended
/// to the other, and where genes are still missing, the remaining genes of
/// each parent, in that parent's order, are crossed recursively and
/// appended. Both offspring hold every gene of the parents exactly once.
pub fn breed(parent1: &Vec<usize>, parent2: &Vec<usize>) -> (r: (Vec<usize>, Vec<usize>))
    requires
        parents_compatible(parent1@, parent2@),
    ensures
        (r.0@, r.1@) == breed_spec(parent1@, parent2@),
        r.0@.len() >= 1,
        r.0@[0] == parent2@[0],
        is_rearrangement(r.0@, parent1@),
        is_rearrangement(r.1@, parent1@),
    decreases parent1.len(),
{
    proof {
        lemma_distinct_len(parent1@);
        lemma_distinct_len(parent2@);
    }
    let (mut offspring1, mut offspring2) = cycle_walk(parent1, parent2);
    let mut forgotten1 = genes_not_in(&offspring1, &offspring2);
    let mut forgotten2 = genes_not_in(&offspring2, &offspring1);
    let ghost o1 = offspring1@;
    let ghost o2 = offspring2@;
    let ghost f1 = forgotten1@;
    let ghost f2 = forgotten2@;
    offspring1.append(&mut forgotten2);
    offspring2.append(&mut forgotten1);
    let ghost s = parent1@.to_set();
    let ghost u = offspring1@.to_set();
    proof {
        lemma_concat_distinct(o1, f2);
        lemma_concat_distinct(o2, f1);
        assert(u =~= o1.to_set().union(o2.to_set()));
        assert(offspring2@.to_set() =~= u);
        assert(u.subset_of(s));
        lemma_distinct_len(offspring1@);
        lemma_distinct_len(offspring2@);
        vstd::set_lib::lemma_len_subset(u, s);
        assert(offspring1@[0] == o1[0]);
    }
    if offspring1.len() != parent1.len() {
        let to_breed_1 = genes_not_in(parent1, &offspring2);
        let to_breed_2 = genes_not_in(parent2, &offspring1);
        let ghost rest = s.difference(u);
        proof {
            assert(to_breed_1@.to_set() =~= rest);
            assert(to_breed_2@.to_set() =~= rest);
            lemma_distinct_len(to_breed_1@);
            lemma_distinct_len(to_breed_2@);
            vstd::set_lib::lemma_set_disjoint_lens(u, rest);
            assert(u.union(rest) =~= s);
        }
        let (mut tail1, mut tail2) = breed(&to_breed_1, &to_breed_2);
        let ghost q1 = offspring1@;
        let ghost q2 = offspring2@;
        let ghost t1 = tail1@;
        let ghost t2 = tail2@;
        offspring1.append(&mut tail1);
        offspring2.append(&mut tail2);
        proof {
            assert forall|x: usize| q1.contains(x) implies !t1.contains(x) by {
                assert(t1.to_set().contains(x) == rest.contains(x));
            }
            assert forall|x: usize| q2.contains(x) implies !t2.contains(x) by {
                assert(t2.to_set().contains(x) == rest.contains(x));
            }
            lemma_concat_distinct(q1, t1);
            lemma_concat_distinct(q2, t2);
            assert(offspring1@.to_set() =~= s);
            assert(offspring2@.to_set() =~= s);
            assert(offspring1@[0] == q1[0]);
        }
    } else {
        proof {
            vstd::set_lib::lemma_subset_equality(u, s);
        }
    }
    (offspring1, offspring2)
}

} // verus!
