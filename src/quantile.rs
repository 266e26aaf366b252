use vstd::prelude::*;
use crate::ranges::Breaks;

verus! {

/// The position of boundary `i` among `n` sorted values split into `k`
/// classes: `ceil(i * n / k) - 1`, and 0 where that would be below 0.
pub open spec fn quantile_rank(i: int, n: int, k: int) -> int {
    if i * n <= 0 {
        0
    } else {
        (i * n + k - 1) / k - 1
    }
}

/// The boundary position `quantile_rank(i, n, k)`, for `i <= k` and
/// `k <= n`; it always lies below `n`.
fn rank_of(i: usize, n: usize, k: usize) -> (r: usize)
    requires
        i <= k <= n,
        n >= 1,
    ensures
        r == quantile_rank(i as int, n as int, k as int),
        r < n,
{
    proof {
        assert((i as int) * (n as int) <= 0xffff_ffff_ffff_ffff * 0xffff_ffff_ffff_ffffu128) by (nonlinear_arith)
            requires 0 <= i <= 0xffff_ffff_ffff_ffff, 0 <= n <= 0xffff_ffff_ffff_ffff;
    }
    let prod: u128 = (i as u128) * (n as u128);
    if prod == 0 {
        return 0;
    }
    let ghost ii = i as int;
    let ghost nn = n as int;
    let ghost kk = k as int;
    proof {
        assert(ii * nn <= kk * nn) by (nonlinear_arith)
            requires 0 <= ii <= kk, nn >= 0;
        assert(ii >= 1) by (nonlinear_arith)
            requires ii * nn > 0, ii >= 0, nn >= 0;
        assert(kk >= 1);
        assert(kk * nn <= 0xffff_ffff_ffff_ffff * 0xffff_ffff_ffff_ffffu128) by (nonlinear_arith)
            requires 0 <= kk <= 0xffff_ffff_ffff_ffff, 0 <= nn <= 0xffff_ffff_ffff_ffff;
        let q = (ii * nn + kk - 1) / kk;
        vstd::arithmetic::div_mod::lemma_div_is_ordered(kk, ii * nn + kk - 1, kk);
        vstd::arithmetic::div_mod::lemma_div_by_self(kk);
        vstd::arithmetic::div_mod::lemma_div_is_ordered(ii * nn + kk - 1, kk * nn + kk - 1, kk);
        vstd::arithmetic::div_mod::lemma_fundamental_div_mod_converse(kk * nn + kk - 1, kk, nn, kk - 1);
        assert(q >= 1);
        assert(q <= nn);
    }
    let q: u128 = (prod + (k as u128) - 1) / (k as u128);
    (q - 1) as usize
}

/// Quantile classification of the sorted values `sorted_nums` into
/// `num_classes` classes: boundary `i` is the value at position
/// `ceil(i * n / k) - 1` (0 at the least). Nothing when there are fewer
/// values than classes.
pub fn get_quantile<F: Copy>(sorted_nums: &[F], num_classes: usize) -> (r: Option<Breaks<F>>)
    requires
        num_classes >= 1 || sorted_nums@.len() >= 1,
    ensures
        r is None <==> sorted_nums@.len() < num_classes,
        r matches Some(b) ==> {
            &&& b@.len() == num_classes + 1
            &&& forall|i: int|
                0 <= i <= num_classes ==> #[trigger] b@[i] == sorted_nums@[quantile_rank(
                    i,
                    sorted_nums@.len() as int,
                    num_classes as int,
                )]
        },
{
    let n = sorted_nums.len();
    if n < num_classes {
        return None;
    }
    let mut v: Vec<F> = Vec::new();
    let mut i: usize = 0;
    loop
        invariant_except_break
            i <= num_classes,
            v@.len() == i,
        invariant
            n == sorted_nums@.len(),
            num_classes <= n,
            n >= 1,
            forall|t: int|
                0 <= t < v@.len() ==> #[trigger] v@[t] == sorted_nums@[quantile_rank(t, n as int, num_classes as int)],
        ensures
            v@.len() == num_classes + 1,
        decreases num_classes - i,
    {
        let idx = rank_of(i, n, num_classes);
        v.push(sorted_nums[idx]);
        if i == num_classes {
            break;
        }
        i = i + 1;
    }
    Some(Breaks(v))
}

/// Quantile classification into four classes.
pub fn get_quartile<F: Copy>(nums: &[F]) -> (r: Option<Breaks<F>>)
    ensures
        r is None <==> nums@.len() < 4,
        r matches Some(b) ==> {
            &&& b@.len() == 5
            &&& forall|i: int|
                0 <= i <= 4 ==> #[trigger] b@[i] == nums@[quantile_rank(i, nums@.len() as int, 4)]
        },
{
    get_quantile(nums, 4)
}

} // verus!
