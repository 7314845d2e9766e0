use vstd::prelude::*;

verus! {

/// Largest candidate count a weighted draw accepts; keeps the weight total
/// within a `u64`.
pub const MAX_CANDIDATES: u64 = 0x100_0000_0000;

/// The weight of the nearest candidate, and the scale of all weights.
pub const WEIGHT_SCALE: u64 = 1_000_000;

/// Exponential decay from the front: each weight is the one before times
/// e^-1 (0.367879), in millionths, rounded down.
pub open spec fn exp_weight(i: nat) -> nat
    decreases i,
{
    if i == 0 {
        1_000_000
    } else {
        exp_weight((i - 1) as nat) * 367_879 / 1_000_000
    }
}

/// Linear decay from the front: 1 / (0.8 i + 1), in millionths, rounded down.
pub open spec fn linear_weight(i: nat) -> nat {
    5_000_000nat / (4 * i + 5)
}

/// The weight of the candidate at index `i`.
pub open spec fn weight_of(i: nat, more_weight: bool) -> nat {
    if more_weight {
        exp_weight(i)
    } else {
        linear_weight(i)
    }
}

/// The sum of the first `n` weights.
pub open spec fn weight_sum(w: Seq<u64>, n: int) -> int
    decreases n,
{
    if n <= 0 || n > w.len() {
        0
    } else {
        weight_sum(w, n - 1) + w[n - 1]
    }
}

proof fn lemma_exp_weight_bounded(i: nat)
    ensures
        exp_weight(i) <= 1_000_000,
    decreases i,
{
    if i > 0 {
        lemma_exp_weight_bounded((i - 1) as nat);
    }
}

proof fn lemma_weight_sum_mono(w: Seq<u64>, a: int, b: int)
    requires
        0 <= a <= b <= w.len(),
    ensures
        weight_sum(w, a) <= weight_sum(w, b),
    decreases b - a,
{
    if a < b {
        lemma_weight_sum_mono(w, a, b - 1);
    }
}

/// The sum of the weights is at least the first one.
pub proof fn lemma_weight_sum_ge_first(w: Seq<u64>, n: int)
    requires
        1 <= n <= w.len(),
    ensures
        weight_sum(w, n) >= w[0],
    decreases n,
{
    if n > 1 {
        lemma_weight_sum_ge_first(w, n - 1);
    } else {
        assert(weight_sum(w, 0) == 0);
    }
}

/// The weight of every candidate of a list of `n`.
pub fn calc_weights(n: usize, more_weight: bool) -> (r: Vec<u64>)
    requires
        n <= MAX_CANDIDATES as int,
    ensures
        r@.len() == n,
        forall|i: int| 0 <= i < n ==> r@[i] == weight_of(i as nat, more_weight),
        forall|i: int| 0 <= i < n ==> r@[i] <= WEIGHT_SCALE,
{
    let mut r: Vec<u64> = Vec::new();
    let mut w: u64 = WEIGHT_SCALE;
    let mut i: usize = 0;
    while i < n
        invariant
            i <= n <= MAX_CANDIDATES as int,
            r@.len() == i,
            w == exp_weight(i as nat),
            w <= WEIGHT_SCALE,
            forall|j: int| 0 <= j < i ==> r@[j] == weight_of(j as nat, more_weight),
            forall|j: int| 0 <= j < i ==> r@[j] <= WEIGHT_SCALE,
        decreases n - i,
    {
        if more_weight {
            r.push(w);
        } else {
            let den: u64 = 4 * (i as u64) + 5;
            let lw: u64 = 5_000_000 / den;
            assert(lw <= WEIGHT_SCALE) by (nonlinear_arith)
                requires
                    lw == 5_000_000u64 / den,
                    den >= 5,
            ;
            r.push(lw);
        }
        proof {
            lemma_exp_weight_bounded((i + 1) as nat);
        }
        w = w * 367_879 / 1_000_000;
        i = i + 1;
    }
    r
}

/// Where `v` falls when the weights are laid end to end from zero: the index
/// `i` with `weight_sum(i) <= v < weight_sum(i + 1)`, or the length when `v`
/// is at or past the total.
pub fn pick_weighted(weights: &Vec<u64>, v: u64) -> (r: usize)
    requires
        weight_sum(weights@, weights@.len() as int) <= u64::MAX,
    ensures
        r <= weights@.len(),
        r < weights@.len() ==> weight_sum(weights@, r as int) <= v < weight_sum(weights@, r + 1),
        r == weights@.len() ==> weight_sum(weights@, weights@.len() as int) <= v,
{
    let mut cumulative: u64 = 0;
    let mut i: usize = 0;
    while i < weights.len()
        invariant
            i <= weights@.len(),
            cumulative == weight_sum(weights@, i as int),
            cumulative <= v,
            weight_sum(weights@, weights@.len() as int) <= u64::MAX,
        decreases weights@.len() - i,
    {
        proof {
            lemma_weight_sum_mono(weights@, i + 1, weights@.len() as int);
        }
        cumulative = cumulative + weights[i];
        if v < cumulative {
            return i;
        }
        i = i + 1;
    }
    i
}

} // verus!
