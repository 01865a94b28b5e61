use vstd::prelude::*;

use crate::chance::shuffle;
use crate::crossover::{breed, breed_spec, parents_compatible};
use crate::tour::{is_rearrangement, is_tour, rotate_to_start, rotation};

verus! {

broadcast use vstd::seq_lib::group_to_multiset_ensures;

/// Two sequences with one multiset of elements, the first without
/// duplicates, are rearrangements of each other.
proof fn lemma_same_multiset(a: Seq<usize>, b: Seq<usize>)
    requires
        a.no_duplicates(),
        a.to_multiset() == b.to_multiset(),
    ensures
        is_rearrangement(b, a),
{
    a.lemma_multiset_has_no_duplicates();
    b.lemma_multiset_has_no_duplicates_conv();
    assert forall|x: usize| b.contains(x) <==> a.contains(x) by {
        assert(b.contains(x) <==> b.to_multiset().count(x) > 0);
        assert(a.contains(x) <==> a.to_multiset().count(x) > 0);
    }
    assert(b.to_set() =~= a.to_set());
    assert(a.len() == a.to_multiset().len());
    assert(b.len() == b.to_multiset().len());
}

/// The indices `0..n` in increasing order.
fn identity_tour(n: usize) -> (r: Vec<usize>)
    ensures
        r@ == Seq::new(n as nat, |i: int| i as usize),
{
    let mut r: Vec<usize> = Vec::new();
    let mut i: usize = 0;
    while i < n
        invariant
            i <= n,
            r@ == Seq::new(i as nat, |k: int| k as usize),
        decreases n - i,
    {
        r.push(i);
        i += 1;
        proof {
            assert(r@ =~= Seq::new(i as nat, |k: int| k as usize));
        }
    }
    r
}

/// A uniformly shuffled tour of `point_count` points.
pub fn random_tour(point_count: usize) -> (r: Vec<usize>)
    ensures
        is_tour(r@, point_count as nat),
{
    let mut r = identity_tour(point_count);
    let ghost id = r@;
    shuffle(&mut r);
    proof {
        lemma_same_multiset(id, r@);
    }
    r
}

/// `size` random tours of `point_count` points.
pub fn generate_population(point_count: usize, size: usize) -> (r: Vec<Vec<usize>>)
    ensures
        r.len() == size,
        forall|i: int| 0 <= i < r.len() ==> is_tour(#[trigger] r@[i]@, point_count as nat),
{
    let mut r: Vec<Vec<usize>> = Vec::new();
    let mut i: usize = 0;
    while i < size
        invariant
            i <= size,
            r.len() == i,
            forall|k: int| 0 <= k < r.len() ==> is_tour(#[trigger] r@[k]@, point_count as nat),
        decreases size - i,
    {
        r.push(random_tour(point_count));
        i += 1;
    }
    r
}


/// Every member of `population` is a tour of `n` points.
pub open spec fn is_population(population: Seq<Vec<usize>>, n: nat) -> bool {
    forall|i: int| 0 <= i < population.len() ==> is_tour(#[trigger] population[i]@, n)
}

/// Two tours of at least one point can be crossed.
proof fn lemma_tours_compatible(a: Seq<usize>, b: Seq<usize>, n: nat)
    requires
        n >= 1,
        is_tour(a, n),
        is_tour(b, n),
    ensures
        parents_compatible(a, b),
{
}

/// Copies a tour gene by gene.
fn copy_tour(t: &Vec<usize>) -> (r: Vec<usize>)
    ensures
        r@ == t@,
{
    let mut r: Vec<usize> = Vec::new();
    let mut i: usize = 0;
    while i < t.len()
        invariant
            i <= t.len(),
            r@ == t@.subrange(0, i as int),
        decreases t.len() - i,
    {
        r.push(t[i]);
        i += 1;
        proof {
            assert(r@ =~= t@.subrange(0, i as int));
        }
    }
    proof {
        assert(t@.subrange(0, t.len() as int) =~= t@);
    }
    r
}

/// The genes of each member of `population`.
pub open spec fn member_genes(population: Seq<Vec<usize>>) -> Seq<Seq<usize>> {
    population.map_values(|t: Vec<usize>| t@)
}

/// `bred` is `population` with consecutive pairs crossed: the pair at
/// `2 * k` and `2 * k + 1` is replaced by its two offspring where `flags[k]`
/// holds and kept otherwise; a last member without a partner is kept.
pub open spec fn bred_pairs(population: Seq<Vec<usize>>, flags: Seq<bool>, bred: Seq<Vec<usize>>) -> bool {
    &&& bred.len() == population.len()
    &&& flags.len() == population.len() / 2
    &&& forall|k: int|
        0 <= k < flags.len() ==> if #[trigger] flags[k] {
            (bred[2 * k]@, bred[2 * k + 1]@) == breed_spec(population[2 * k]@, population[2 * k + 1]@)
        } else {
            bred[2 * k]@ == population[2 * k]@ && bred[2 * k + 1]@ == population[2 * k + 1]@
        }
    &&& population.len() % 2 == 1 ==> bred[population.len() - 1]@ == population[population.len()
        - 1]@
}

/// Mapping both sides of an equality of multisets keeps it equal.
proof fn lemma_map_multiset(a: Seq<Vec<usize>>, b: Seq<Vec<usize>>)
    requires
        a.to_multiset() == b.to_multiset(),
    ensures
        member_genes(a).to_multiset() == member_genes(b).to_multiset(),
    decreases a.len(),
{
    broadcast use vstd::multiset::group_multiset_axioms;

    assert(a.len() == a.to_multiset().len());
    assert(b.len() == b.to_multiset().len());
    if a.len() == 0 {
        assert(member_genes(a) =~= Seq::empty());
        assert(member_genes(b) =~= Seq::empty());
    } else {
        let x = a.last();
        let rest = a.drop_last();
        assert(a =~= rest.push(x));
        assert(a.to_multiset().count(x) > 0);
        assert(b.contains(x));
        let j = choose|j: int| 0 <= j < b.len() && b[j] == x;
        let b_rest = b.remove(j);
        assert(rest.to_multiset() =~= b_rest.to_multiset());
        lemma_map_multiset(rest, b_rest);
        assert(member_genes(a) =~= member_genes(rest).push(x@));
        assert(member_genes(b_rest) =~= member_genes(b).remove(j));
        assert(member_genes(b)[j] == x@);
        assert(member_genes(b).to_multiset().count(x@) > 0);
        assert(member_genes(a).to_multiset() =~= member_genes(b).to_multiset());
    }
}

/// Crosses consecutive pairs of `population`: the pair at `2 * k` and
/// `2 * k + 1` is replaced by its two offspring where `crossover_flags[k]`
/// holds, and kept as it is otherwise. A last member without a partner is
/// kept as it is.
pub fn breed_pairs(population: &Vec<Vec<usize>>, crossover_flags: &Vec<bool>, point_count: usize) -> (r:
    Vec<Vec<usize>>)
    requires
        point_count >= 1,
        crossover_flags.len() == population.len() / 2,
        is_population(population@, point_count as nat),
    ensures
        bred_pairs(population@, crossover_flags@, r@),
        is_population(r@, point_count as nat),
{
    let mut r: Vec<Vec<usize>> = Vec::new();
    let mut k: usize = 0;
    while k < crossover_flags.len()
        invariant
            point_count >= 1,
            crossover_flags.len() == population.len() / 2,
            is_population(population@, point_count as nat),
            k <= crossover_flags.len(),
            r.len() == 2 * k,
            is_population(r@, point_count as nat),
            forall|j: int|
                0 <= j < k ==> if #[trigger] crossover_flags@[j] {
                    (r@[2 * j]@, r@[2 * j + 1]@) == breed_spec(population@[2 * j]@, population@[2 * j + 1]@)
                } else {
                    r@[2 * j]@ == population@[2 * j]@ && r@[2 * j + 1]@ == population@[2 * j
                        + 1]@
                },
        decreases crossover_flags.len() - k,
    {
        let first = &population[2 * k];
        let second = &population[2 * k + 1];
        if crossover_flags[k] {
            proof {
                lemma_tours_compatible(first@, second@, point_count as nat);
            }
            let (offspring1, offspring2) = breed(first, second);
            r.push(offspring1);
            r.push(offspring2);
        } else {
            r.push(copy_tour(first));
            r.push(copy_tour(second));
        }
        k += 1;
    }
    if population.len() % 2 == 1 {
        r.push(copy_tour(&population[population.len() - 1]));
    }
    r
}

/// Shuffles `population` into a random pairing order and crosses each
/// consecutive pair where its flag holds, by [`breed_pairs`]. The result is
/// that of [`breed_pairs`] on some rearrangement of the members: the size of
/// the population is kept and every member stays a tour.
pub fn breed_population(population: &Vec<Vec<usize>>, crossover_flags: &Vec<bool>, point_count: usize) -> (r:
    Vec<Vec<usize>>)
    requires
        point_count >= 1,
        crossover_flags.len() == population.len() / 2,
        is_population(population@, point_count as nat),
    ensures
        r.len() == population.len(),
        is_population(r@, point_count as nat),
        exists|q: Seq<Vec<usize>>|
            member_genes(q).to_multiset() == member_genes(population@).to_multiset()
                && #[trigger] bred_pairs(q, crossover_flags@, r@),
{
    let mut shuffled: Vec<Vec<usize>> = Vec::new();
    let mut i: usize = 0;
    while i < population.len()
        invariant
            i <= population.len(),
            shuffled.len() == i,
            forall|j: int| 0 <= j < i ==> (#[trigger] shuffled@[j])@ == population@[j]@,
        decreases population.len() - i,
    {
        shuffled.push(copy_tour(&population[i]));
        i += 1;
    }
    let ghost copied = shuffled@;
    proof {
        assert(member_genes(copied) =~= member_genes(population@));
        assert(shuffled@.len() == shuffled@.to_multiset().len());
    }
    shuffle(&mut shuffled);
    proof {
        assert(shuffled@.len() == shuffled@.to_multiset().len());
        lemma_map_multiset(shuffled@, copied);
        assert forall|j: int| 0 <= j < shuffled.len() implies is_tour(#[trigger] shuffled@[j]@, point_count as nat) by {
            assert(shuffled@.to_multiset().count(shuffled@[j]) > 0);
        }
    }
    let r = breed_pairs(&shuffled, crossover_flags, point_count);
    proof {
        assert(member_genes(shuffled@).to_multiset() == member_genes(population@).to_multiset()
            && bred_pairs(shuffled@, crossover_flags@, r@));
    }
    r
}

/// `s` with the genes at positions `i` and `j` exchanged.
pub open spec fn swap_genes(s: Seq<usize>, i: int, j: int) -> Seq<usize> {
    s.update(i, s[j]).update(j, s[i])
}

/// `s` after the first `k` steps of a swap plan: step `i` exchanges
/// position `i` with position `j` where the plan holds `Some(j)`.
pub open spec fn apply_swaps(s: Seq<usize>, plan: Seq<Option<usize>>, k: nat) -> Seq<usize>
    decreases k,
{
    if k == 0 {
        s
    } else {
        let before = apply_swaps(s, plan, (k - 1) as nat);
        match plan[k - 1] {
            Some(j) => swap_genes(before, k - 1, j as int),
            None => before,
        }
    }
}

/// A swap plan for an individual of `n` genes: one optional partner
/// position per gene.
pub open spec fn valid_plan(plan: Seq<Option<usize>>, n: nat) -> bool {
    &&& plan.len() == n
    &&& forall|i: int| 0 <= i < plan.len() && (#[trigger] plan[i]) is Some ==> plan[i]->Some_0 < n
}

/// Exchanging two genes keeps the multiset of genes.
proof fn lemma_swap_keeps_genes(s: Seq<usize>, i: int, j: int)
    requires
        0 <= i < s.len(),
        0 <= j < s.len(),
    ensures
        swap_genes(s, i, j).to_multiset() == s.to_multiset(),
        swap_genes(s, i, j).len() == s.len(),
{
    broadcast use vstd::multiset::group_multiset_axioms;

    if i == j {
        assert(swap_genes(s, i, j) =~= s);
    } else {
        let u = s.update(i, s[j]);
        assert(u[j] == s[j]);
        assert(u.to_multiset() == s.to_multiset().insert(s[j]).remove(s[i]));
        assert(u.update(j, s[i]).to_multiset() == u.to_multiset().insert(s[i]).remove(s[j]));
        assert(s.to_multiset().count(s[i]) > 0);
        assert(s.to_multiset().count(s[j]) > 0);
        assert(swap_genes(s, i, j).to_multiset() =~= s.to_multiset());
    }
}

/// Two sequences with one multiset of elements, the first without
/// duplicates, are rearrangements of each other.
proof fn lemma_rearranged_genes(a: Seq<usize>, b: Seq<usize>)
    requires
        a.to_multiset() == b.to_multiset(),
    ensures
        a.no_duplicates() ==> is_rearrangement(b, a),
{
    if a.no_duplicates() {
        lemma_same_multiset(a, b);
    }
}

/// Swap mutation: walks the positions in order and exchanges position `i`
/// with `swap_with[i]` where that is `Some`. The individual keeps its genes.
pub fn mutate(individual: &mut Vec<usize>, swap_with: &Vec<Option<usize>>)
    requires
        valid_plan(swap_with@, old(individual).len() as nat),
    ensures
        final(individual)@ == apply_swaps(old(individual)@, swap_with@, swap_with.len() as nat),
        final(individual)@.to_multiset() == old(individual)@.to_multiset(),
        old(individual)@.no_duplicates() ==> is_rearrangement(final(individual)@, old(individual)@),
{
    let ghost start = individual@;
    let n = individual.len();
    let mut i: usize = 0;
    while i < n
        invariant
            n == individual.len() == start.len(),
            valid_plan(swap_with@, n as nat),
            i <= n,
            individual@ == apply_swaps(start, swap_with@, i as nat),
            individual@.to_multiset() == start.to_multiset(),
        decreases n - i,
    {
        match swap_with[i] {
            Some(j) => {
                proof {
                    assert(swap_with@[i as int] is Some);
                    lemma_swap_keeps_genes(individual@, i as int, j as int);
                }
                let a = individual[i];
                let b = individual[j];
                individual[i] = b;
                individual[j] = a;
                proof {
                    assert(individual@ =~= swap_genes(apply_swaps(start, swap_with@, i as nat), i as int, j as int));
                }
            },
            None => {},
        }
        i += 1;
    }
    proof {
        lemma_rearranged_genes(start, individual@);
    }
}

/// Applies `plans[i]` to member `i` of `population` by [`mutate`].
pub fn mutate_population(population: &mut Vec<Vec<usize>>, plans: &Vec<Vec<Option<usize>>>)
    requires
        plans.len() == old(population).len(),
        forall|i: int|
            0 <= i < plans.len() ==> valid_plan(
                #[trigger] plans@[i]@,
                old(population)@[i]@.len(),
            ),
    ensures
        final(population).len() == old(population).len(),
        forall|i: int|
            0 <= i < plans.len() ==> (#[trigger] final(population)@[i])@ == apply_swaps(
                old(population)@[i]@,
                plans@[i]@,
                plans@[i]@.len(),
            ) && final(population)@[i]@.to_multiset() == old(population)@[i]@.to_multiset() && (
            old(population)@[i]@.no_duplicates() ==> is_rearrangement(
                final(population)@[i]@,
                old(population)@[i]@,
            )),
        forall|n: nat|
            is_population(old(population)@, n) ==> #[trigger] is_population(final(population)@, n),
{
    let ghost start = population@;
    let mut i: usize = 0;
    while i < plans.len()
        invariant
            plans.len() == start.len() == population.len(),
            forall|k: int|
                0 <= k < plans.len() ==> valid_plan(#[trigger] plans@[k]@, start[k]@.len()),
            i <= plans.len(),
            forall|k: int| i <= k < plans.len() ==> #[trigger] population@[k] == start[k],
            forall|k: int|
                0 <= k < i ==> (#[trigger] population@[k])@ == apply_swaps(
                    start[k]@,
                    plans@[k]@,
                    plans@[k]@.len(),
                ) && population@[k]@.to_multiset() == start[k]@.to_multiset() && (
                start[k]@.no_duplicates() ==> is_rearrangement(population@[k]@, start[k]@)),
        decreases plans.len() - i,
    {
        let mut individual = copy_tour(&population[i]);
        mutate(&mut individual, &plans[i]);
        population[i] = individual;
        i += 1;
    }
    proof {
        assert forall|n: nat| is_population(start, n) implies #[trigger] is_population(population@, n) by {
            assert forall|k: int| 0 <= k < population.len() implies is_tour(
                #[trigger] population@[k]@,
                n,
            ) by {
                assert(is_tour(start[k]@, n));
            }
        }
    }
}

/// Selection and replacement: the best `population_size - dying_count`
/// members, in the order that `ranking` gives them (best first), follow
/// `dying_count` new random tours of `point_count` points.
pub fn replace_weakest(
    population: &Vec<Vec<usize>>,
    ranking: &Vec<usize>,
    population_size: usize,
    dying_count: usize,
    point_count: usize,
) -> (r: Vec<Vec<usize>>)
    requires
        dying_count <= population_size,
        population_size - dying_count <= ranking.len(),
        forall|k: int| 0 <= k < ranking.len() ==> #[trigger] ranking@[k] < population.len(),
    ensures
        r.len() == population_size,
        forall|i: int| 0 <= i < dying_count ==> is_tour(#[trigger] r@[i]@, point_count as nat),
        forall|k: int|
            0 <= k < population_size - dying_count ==> (#[trigger] r@[dying_count + k])@
                == population@[ranking@[k] as int]@,
        is_population(population@, point_count as nat) ==> is_population(r@, point_count as nat),
{
    let mut r = generate_population(point_count, dying_count);
    let keep = population_size - dying_count;
    let mut k: usize = 0;
    while k < keep
        invariant
            keep == population_size - dying_count,
            keep <= ranking.len(),
            forall|j: int| 0 <= j < ranking.len() ==> #[trigger] ranking@[j] < population.len(),
            k <= keep,
            r.len() == dying_count + k,
            forall|i: int| 0 <= i < dying_count ==> is_tour(#[trigger] r@[i]@, point_count as nat),
            forall|j: int|
                0 <= j < k ==> (#[trigger] r@[dying_count + j])@ == population@[ranking@[j] as int]@,
        decreases keep - k,
    {
        r.push(copy_tour(&population[ranking[k]]));
        k += 1;
    }
    proof {
        if is_population(population@, point_count as nat) {
            assert forall|i: int| 0 <= i < r.len() implies is_tour(
                #[trigger] r@[i]@,
                point_count as nat,
            ) by {
                if i >= dying_count {
                    assert(r@[dying_count + (i - dying_count)]@ == population@[ranking@[i
                        - dying_count] as int]@);
                }
            }
        }
    }
    r
}

/// The member `best` of a population of tours of `point_count` points,
/// rotated to begin at `start`: a tour of all the points that begins at
/// `start`.
pub fn winning_tour(population: &Vec<Vec<usize>>, best: usize, start: usize, point_count: usize) -> (r:
    Vec<usize>)
    requires
        is_population(population@, point_count as nat),
        best < population.len(),
        start < point_count,
    ensures
        is_tour(r@, point_count as nat),
        r@[0] == start,
        exists|k: int|
            0 <= k < population@[best as int]@.len() && population@[best as int]@[k] == start
                && r@ == rotation(population@[best as int]@, k),
{
    let tour = &population[best];
    proof {
        let id = Seq::new(point_count as nat, |i: int| i as usize);
        assert(is_tour(tour@, point_count as nat));
        assert(id[start as int] == start);
        assert(id.to_set().contains(start));
        assert(tour@.to_set().contains(start));
    }
    let r = rotate_to_start(tour, start);
    r
}

} // verus!
