use vstd::prelude::*;
use itertools::Itertools;
use crate::combinatorics::binom;

verus! {

/// `c` is a strictly increasing sequence of `k` indices, all below `n`.
pub open spec fn is_combination(c: Seq<usize>, n: int, k: int) -> bool {
    &&& c.len() == k
    &&& forall|i: int| 0 <= i < c.len() ==> #[trigger] c[i] < n
    &&& forall|i: int, j: int| 0 <= i < j < c.len() ==> #[trigger] c[i] < #[trigger] c[j]
}

/// `a` comes before `b` in lexicographic order: they agree up to some
/// position, where `a` holds the smaller index.
pub open spec fn lex_less(a: Seq<usize>, b: Seq<usize>) -> bool {
    exists|i: int| 0 <= i < a.len() && i < b.len() && a.take(i) == b.take(i) && #[trigger] a[i] < b[i]
}

/// `cs` lists every `k`-combination of indices below `n`, each once, in
/// lexicographic order.
pub open spec fn lists_combinations(cs: Seq<Seq<usize>>, n: int, k: int) -> bool {
    &&& forall|i: int| 0 <= i < cs.len() ==> is_combination(#[trigger] cs[i], n, k)
    &&& forall|i: int, j: int| 0 <= i < j < cs.len() ==> lex_less(#[trigger] cs[i], #[trigger] cs[j])
    &&& forall|c: Seq<usize>| is_combination(c, n, k) ==> exists|i: int| 0 <= i < cs.len() && #[trigger] cs[i] == c
}

/// Relies on `Itertools::combinations` over the range `0..n`: it yields every
/// strictly increasing choice of `k` indices below `n`, in lexicographic order.
#[verifier::external_body]
fn index_combinations(n: usize, k: usize) -> (r: Vec<Vec<usize>>)
    ensures
        lists_combinations(r@.map_values(|c: Vec<usize>| c@), n as int, k as int),
{
    (0..n).combinations(k).collect()
}

/// Where class `j` starts, for cut indices `c`: the first class at 0, every
/// other one just past the previous cut.
pub open spec fn class_start(c: Seq<usize>, j: int) -> int {
    if j == 0 {
        0
    } else {
        c[j - 1] + 1
    }
}

/// Where class `j` ends (exclusive), for cut indices `c` over `n` values:
/// just past its own cut, or at `n` for the last class.
pub open spec fn class_end(c: Seq<usize>, n: int, j: int) -> int {
    if j == c.len() {
        n
    } else {
        c[j] + 1
    }
}

/// The classes of `nums` cut after each index of `c`: `c.len() + 1`
/// contiguous pieces.
pub open spec fn classes_of(nums: Seq<i64>, c: Seq<usize>) -> Seq<Seq<i64>> {
    Seq::new(
        (c.len() + 1 as int) as nat,
        |j: int| nums.subrange(class_start(c, j), class_end(c, nums.len() as int, j)),
    )
}

/// The values of each slice of a partition.
pub open spec fn partition_view(p: Seq<&[i64]>) -> Seq<Seq<i64>> {
    Seq::new(p.len(), |j: int| p[j]@)
}

/// `parts` holds, in lexicographic order of their cut indices, every way of
/// splitting `nums` into `k` contiguous non-empty classes, each once.
pub open spec fn all_partitions(nums: Seq<i64>, k: int, parts: Seq<Seq<Seq<i64>>>) -> bool {
    exists|cuts: Seq<Seq<usize>>|
        {
            &&& lists_combinations(cuts, nums.len() - 1, k - 1)
            &&& cuts.len() == parts.len()
            &&& forall|i: int| 0 <= i < parts.len() ==> #[trigger] parts[i] == classes_of(nums, cuts[i])
        }
}

/// Slices `nums` into the classes that the cut indices `cuts` mark.
fn split_at_cuts<'a>(nums: &'a [i64], cuts: &Vec<usize>) -> (r: Vec<&'a [i64]>)
    requires
        is_combination(cuts@, nums@.len() - 1, cuts@.len() as int),
    ensures
        partition_view(r@) == classes_of(nums@, cuts@),
{
    let mut r: Vec<&'a [i64]> = Vec::new();
    let n = nums.len();
    let mut start: usize = 0;
    let mut j: usize = 0;
    while j < cuts.len()
        invariant
            n == nums@.len(),
            is_combination(cuts@, nums@.len() - 1, cuts@.len() as int),
            0 <= j <= cuts@.len(),
            r@.len() == j,
            start == class_start(cuts@, j as int),
            forall|t: int| 0 <= t < j ==> #[trigger] r@[t]@ == classes_of(nums@, cuts@)[t],
        decreases cuts@.len() - j,
    {
        assert(cuts@[j as int] < nums@.len() - 1);
        let end: usize = cuts[j] + 1;
        proof {
            if j > 0 {
                assert(cuts@[j - 1] < cuts@[j as int]);
            }
        }
        let piece = vstd::slice::slice_subrange(nums, start, end);
        r.push(piece);
        start = end;
        j = j + 1;
    }
    let piece = vstd::slice::slice_subrange(nums, start, nums.len());
    r.push(piece);
    proof {
        assert(partition_view(r@) =~= classes_of(nums@, cuts@));
    }
    r
}

/// Every way of splitting the sorted `nums` into `num_classes` contiguous,
/// non-empty classes, as slices of `nums`, in lexicographic order of the
/// indices after which one class ends and the next begins.
pub fn get_combinations(nums: &[i64], num_classes: usize) -> (r: Vec<Vec<&[i64]>>)
    requires
        1 <= num_classes <= nums@.len(),
    ensures
        all_partitions(nums@, num_classes as int, r@.map_values(|p: Vec<&[i64]>| partition_view(p@))),
        r@.len() == binom((nums@.len() - 1) as nat, (num_classes - 1) as nat),
{
    let length = nums.len();
    let breaks = num_classes - 1;
    let combos = index_combinations(length - 1, breaks);
    let ghost cuts = combos@.map_values(|c: Vec<usize>| c@);
    let mut results: Vec<Vec<&[i64]>> = Vec::with_capacity(combos.len());
    let mut idx: usize = 0;
    while idx < combos.len()
        invariant
            cuts == combos@.map_values(|c: Vec<usize>| c@),
            lists_combinations(cuts, length - 1, breaks as int),
            length == nums@.len(),
            0 <= idx <= combos@.len(),
            results@.len() == idx,
            forall|t: int| 0 <= t < idx ==> partition_view(#[trigger] results@[t]@) == classes_of(nums@, cuts[t]),
        decreases combos@.len() - idx,
    {
        assert(is_combination(cuts[idx as int], length - 1, breaks as int));
        let part = split_at_cuts(nums, &combos[idx]);
        results.push(part);
        idx = idx + 1;
    }
    proof {
        let parts = results@.map_values(|p: Vec<&[i64]>| partition_view(p@));
        assert(parts.len() == cuts.len());
        assert forall|i: int| 0 <= i < parts.len() implies #[trigger] parts[i] == classes_of(nums@, cuts[i]) by {}
        assert(lists_combinations(cuts, nums@.len() - 1, num_classes - 1));
        lemma_listed_count(cuts, length - 1, breaks as int);
    }
    results
}


/// The classes of `nums` for cuts `c` from class `j` on, joined, are the
/// values of `nums` from where class `j` starts.
proof fn lemma_classes_suffix(nums: Seq<i64>, c: Seq<usize>, j: int)
    requires
        is_combination(c, nums.len() - 1, c.len() as int),
        0 <= j <= c.len(),
    ensures
        classes_of(nums, c).subrange(j, c.len() + 1 as int).flatten() =~= nums.subrange(
            class_start(c, j),
            nums.len() as int,
        ),
    decreases c.len() - j,
{
    let cl = classes_of(nums, c);
    let rest = cl.subrange(j, c.len() + 1 as int);
    if j < c.len() {
        lemma_classes_suffix(nums, c, j + 1);
        assert(rest.drop_first() =~= cl.subrange(j + 1, c.len() + 1 as int));
        if j > 0 {
            assert(c[j - 1] < c[j]);
        }
        assert(c[j] < nums.len() - 1);
        assert(rest.first() == nums.subrange(class_start(c, j), c[j] + 1));
        assert(class_start(c, j + 1) == c[j] + 1);
    } else {
        if j > 0 {
            assert(c[j - 1] < nums.len() - 1);
        }
        assert(rest.drop_first() =~= Seq::<Seq<i64>>::empty());
        assert(rest.drop_first().flatten() =~= Seq::<i64>::empty());
    }
}

/// Cutting `nums` after strictly increasing indices below its last index
/// gives non-empty classes that, joined in order, are `nums` again.
pub proof fn lemma_classes_rebuild(nums: Seq<i64>, c: Seq<usize>)
    requires
        nums.len() >= 1,
        is_combination(c, nums.len() - 1, c.len() as int),
    ensures
        classes_of(nums, c).flatten() == nums,
        forall|j: int| 0 <= j <= c.len() ==> #[trigger] classes_of(nums, c)[j].len() > 0,
{
    lemma_classes_suffix(nums, c, 0);
    assert(classes_of(nums, c).subrange(0, c.len() + 1 as int) =~= classes_of(nums, c));
    assert(nums.subrange(0, nums.len() as int) =~= nums);
    assert forall|j: int| 0 <= j <= c.len() implies #[trigger] classes_of(nums, c)[j].len() > 0 by {
        if 0 < j {
            assert(c[j - 1] < nums.len() - 1);
        }
        if j < c.len() {
            assert(c[j] < nums.len() - 1);
            if j > 0 {
                assert(c[j - 1] < c[j]);
            }
        }
        let st = class_start(c, j);
        let en = class_end(c, nums.len() as int, j);
        assert(0 <= st < en <= nums.len());
        assert(classes_of(nums, c)[j] == nums.subrange(st, en));
    }
}

/// Every partition that `get_combinations` lists has `k` non-empty classes
/// which, joined in order, give back the data with nothing duplicated or
/// left out.
pub proof fn lemma_partitions_rebuild(nums: Seq<i64>, k: int, parts: Seq<Seq<Seq<i64>>>)
    requires
        1 <= k <= nums.len(),
        all_partitions(nums, k, parts),
    ensures
        forall|i: int| 0 <= i < parts.len() ==> {
            &&& (#[trigger] parts[i]).flatten() == nums
            &&& parts[i].len() == k
            &&& forall|j: int| 0 <= j < k ==> parts[i][j].len() > 0
        },
{
    let cuts = choose|cuts: Seq<Seq<usize>>|
        {
            &&& lists_combinations(cuts, nums.len() - 1, k - 1)
            &&& cuts.len() == parts.len()
            &&& forall|i: int| 0 <= i < parts.len() ==> #[trigger] parts[i] == classes_of(nums, cuts[i])
        };
    assert forall|i: int| 0 <= i < parts.len() implies {
        &&& (#[trigger] parts[i]).flatten() == nums
        &&& parts[i].len() == k
        &&& forall|j: int| 0 <= j < k ==> parts[i][j].len() > 0
    } by {
        assert(is_combination(cuts[i], nums.len() - 1, k - 1));
        lemma_classes_rebuild(nums, cuts[i]);
        assert forall|j: int| 0 <= j < k implies parts[i][j].len() > 0 by {
            assert(classes_of(nums, cuts[i])[j].len() > 0);
        }
    }
}


/// All `k`-combinations of indices below `n`.
pub open spec fn combination_set(n: int, k: int) -> Set<Seq<usize>> {
    Set::new(|c: Seq<usize>| is_combination(c, n, k))
}

/// There are `C(n, k)` combinations of `k` indices below `n`.
pub proof fn lemma_combination_count(n: int, k: int)
    requires
        0 <= n <= usize::MAX + 1,
        0 <= k,
    ensures
        combination_set(n, k).finite(),
        combination_set(n, k).len() == binom(n as nat, k as nat),
    decreases n,
{
    if k == 0 {
        assert(combination_set(n, 0) =~= set![Seq::<usize>::empty()]) by {
            assert forall|c: Seq<usize>| combination_set(n, 0).contains(c) implies c == Seq::<usize>::empty() by {
                assert(c =~= Seq::<usize>::empty());
            }
        }
    } else if n == 0 {
        assert(combination_set(0, k) =~= Set::<Seq<usize>>::empty()) by {
            assert forall|c: Seq<usize>| !combination_set(0, k).contains(c) by {
                if is_combination(c, 0, k) {
                    assert(c[0] < 0);
                }
            }
        }
    } else {
        lemma_combination_count(n - 1, k);
        lemma_combination_count(n - 1, k - 1);
        let top = (n - 1) as usize;
        let a = combination_set(n - 1, k);
        let b0 = combination_set(n - 1, k - 1);
        let f = |c: Seq<usize>| c.push(top);
        let b = b0.map(f);
        assert(vstd::relations::injective_on(f, b0)) by {
            assert forall|c1: Seq<usize>, c2: Seq<usize>|
                b0.contains(c1) && b0.contains(c2) && #[trigger] f(c1) == #[trigger] f(c2) implies c1 == c2 by {
                assert(c1 =~= f(c1).drop_last());
                assert(c2 =~= f(c2).drop_last());
            }
        }
        vstd::set_lib::lemma_map_size(b0, b, f);
        assert forall|c: Seq<usize>| #[trigger] b.contains(c) implies is_combination(c, n, k) && c.last() == top by {
            let x = choose|x: Seq<usize>| b0.contains(x) && f(x) == c;
            assert forall|i: int, j: int| 0 <= i < j < c.len() implies #[trigger] c[i] < #[trigger] c[j] by {
                if j < x.len() {
                    assert(x[i] < x[j]);
                } else {
                    assert(x[i] < n - 1);
                }
            }
        }
        assert(combination_set(n, k) =~= a + b) by {
            assert forall|c: Seq<usize>| #[trigger] combination_set(n, k).contains(c) implies a.contains(c) || b.contains(c) by {
                let last = c.len() - 1;
                if c[last] == top {
                    let x = c.drop_last();
                    assert(is_combination(x, n - 1, k - 1)) by {
                        assert forall|i: int| 0 <= i < x.len() implies #[trigger] x[i] < n - 1 by {
                            assert(c[i] < c[last]);
                        }
                    }
                    assert(f(x) =~= c);
                    assert(b0.contains(x));
                } else {
                    assert forall|i: int| 0 <= i < c.len() implies #[trigger] c[i] < n - 1 by {
                        if i < last {
                            assert(c[i] < c[last]);
                        }
                    }
                }
            }
        }
        assert(a.disjoint(b)) by {
            assert forall|c: Seq<usize>| a.contains(c) implies !b.contains(c) by {
                assert(c[c.len() - 1] < n - 1);
            }
        }
        vstd::set_lib::lemma_set_disjoint_lens(a, b);
    }
}

/// A list of every `k`-combination below `n`, each once, has `C(n, k)` entries.
pub proof fn lemma_listed_count(cs: Seq<Seq<usize>>, n: int, k: int)
    requires
        lists_combinations(cs, n, k),
        0 <= n <= usize::MAX + 1,
        0 <= k,
    ensures
        cs.len() == binom(n as nat, k as nat),
{
    assert(cs.no_duplicates()) by {
        assert forall|i: int, j: int| 0 <= i < cs.len() && 0 <= j < cs.len() && i != j implies cs[i] != cs[j] by {
            if i < j {
                assert(lex_less(cs[i], cs[j]));
            } else {
                assert(lex_less(cs[j], cs[i]));
            }
        }
    }
    assert(cs.to_set() =~= combination_set(n, k)) by {
        assert forall|c: Seq<usize>| #[trigger] combination_set(n, k).contains(c) implies cs.to_set().contains(c) by {
            let i = choose|i: int| 0 <= i < cs.len() && #[trigger] cs[i] == c;
            assert(cs[i] == c);
        }
    }
    cs.unique_seq_to_set();
    lemma_combination_count(n, k);
}

} // verus!
