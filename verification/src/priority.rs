//! Priority functions: how much a file deserves to stay in the cache, given
//! how often it was asked for and how large it is.

use vstd::prelude::*;

verus! {

/// A rule that scores a file by its access count and its size in bytes.
/// Files with larger scores are kept in preference to files with smaller ones.
///
/// A rule is a pure function: `priority` computes exactly `spec_priority`, so
/// the same arguments always give the same score.
pub trait PriorityFunction {
    /// The score of a file that was accessed `access_count` times and holds
    /// `size` bytes.
    spec fn spec_priority(&self, access_count: nat, size: nat) -> nat;

    /// Computes the score of a file.
    fn priority(&self, access_count: usize, size: usize) -> (score: usize)
        ensures
            score == self.spec_priority(access_count as nat, size as nat),
    ;
}

/// `root` is the integer square root of `n`, rounded down.
pub open spec fn is_sqrt_floor(n: nat, root: nat) -> bool {
    root * root <= n < (root + 1) * (root + 1)
}

/// The integer square root of `n`, rounded down.
pub open spec fn sqrt_floor(n: nat) -> nat {
    choose|root: nat| is_sqrt_floor(n, root)
}

/// The score of the balanced rule: the rounded-down square root of the size,
/// times the access count, capped at the largest `usize`.
pub open spec fn balanced_score(access_count: nat, size: nat) -> nat {
    let product = sqrt_floor(size) * access_count;
    if product <= usize::MAX {
        product
    } else {
        usize::MAX as nat
    }
}

/// Squaring is monotonic on the naturals.
proof fn lemma_square_monotonic(a: nat, b: nat)
    requires
        a <= b,
    ensures
        a * a <= b * b,
{
    assert(a * a <= b * b) by (nonlinear_arith)
        requires
            a <= b,
    ;
}

/// Every number has a rounded-down square root, and `sqrt_floor` is it.
pub proof fn lemma_sqrt_floor(n: nat)
    ensures
        is_sqrt_floor(n, sqrt_floor(n)),
    decreases n,
{
    if n == 0 {
        let zero: nat = 0;
        assert(zero * zero == 0 && (zero + 1) * (zero + 1) == 1) by (nonlinear_arith)
            requires
                zero == 0,
        ;
        assert(is_sqrt_floor(n, zero));
    } else {
        lemma_sqrt_floor((n - 1) as nat);
        let root = sqrt_floor((n - 1) as nat);
        if n < (root + 1) * (root + 1) {
            assert(is_sqrt_floor(n, root));
        } else {
            let next = root + 1;
            assert(next * next < (next + 1) * (next + 1)) by (nonlinear_arith);
            assert(is_sqrt_floor(n, next));
        }
    }
}

/// A number has at most one rounded-down square root.
pub proof fn lemma_sqrt_floor_unique(n: nat, root: nat)
    requires
        is_sqrt_floor(n, root),
    ensures
        sqrt_floor(n) == root,
{
    let chosen = sqrt_floor(n);
    assert(is_sqrt_floor(n, chosen));
    if chosen < root {
        lemma_square_monotonic(chosen + 1, root);
    } else if root < chosen {
        lemma_square_monotonic(root + 1, chosen);
    }
}

/// The rounded-down square root of `n`.
pub fn isqrt(n: usize) -> (root: usize)
    ensures
        root == sqrt_floor(n as nat),
        is_sqrt_floor(n as nat, root as nat),
{
    let target: u64 = n as u64;
    let mut low: u64 = 0;
    let mut high: u64 = 0x1_0000_0000;
    while high - low > 1
        invariant
            target == n,
            low < high <= 0x1_0000_0000,
            low * low <= target < high * high,
        decreases high - low,
    {
        let middle: u64 = low + (high - low) / 2;
        assert(middle * middle <= 0xffff_ffff * 0xffff_ffff) by (nonlinear_arith)
            requires
                middle <= 0xffff_ffff,
        ;
        if middle * middle <= target {
            low = middle;
        } else {
            high = middle;
        }
    }
    proof {
        assert(high == low + 1);
        assert(low <= low * low) by (nonlinear_arith);
        lemma_sqrt_floor_unique(n as nat, low as nat);
    }
    low as usize
}

/// The default rule. It weighs demand against size: the rounded-down square
/// root of the size times the access count, so that a larger file needs
/// proportionally more demand to be worth keeping.
pub struct BalancedPriority;

/// The rule that scores a file by its access count alone.
pub struct AccessPriority;

impl PriorityFunction for BalancedPriority {
    open spec fn spec_priority(&self, access_count: nat, size: nat) -> nat {
        balanced_score(access_count, size)
    }

    fn priority(&self, access_count: usize, size: usize) -> (score: usize) {
        balanced_priority(access_count, size)
    }
}

impl PriorityFunction for AccessPriority {
    open spec fn spec_priority(&self, access_count: nat, size: nat) -> nat {
        access_count
    }

    fn priority(&self, access_count: usize, size: usize) -> (score: usize) {
        access_priority(access_count, size)
    }
}

/// Whether `rule` can be called on every access count and size.
pub open spec fn total<F: Fn(usize, usize) -> usize>(rule: F) -> bool {
    forall|access_count: usize, size: usize| #[trigger] rule.requires((access_count, size))
}

/// Whether `rule` gives one score only for each access count and size.
pub open spec fn deterministic<F: Fn(usize, usize) -> usize>(rule: F) -> bool {
    forall|access_count: usize, size: usize, first: usize, second: usize|
        #[trigger] rule.ensures((access_count, size), first) && #[trigger] rule.ensures(
            (access_count, size),
            second,
        ) ==> first == second
}

/// A rule that is given as a function or a closure from the access count and
/// the size to the score.
pub struct CustomPriority<F: Fn(usize, usize) -> usize> {
    rule: F,
}

impl<F: Fn(usize, usize) -> usize> CustomPriority<F> {
    #[verifier::type_invariant]
    spec fn is_a_function(self) -> bool {
        total(self.rule) && deterministic(self.rule)
    }

    /// The function that scores.
    pub closed spec fn rule(self) -> F {
        self.rule
    }

    /// The rule that scores as `rule` does. A rule is a function in the
    /// mathematical sense: `rule` has to give a score for every access count
    /// and size, and the same score each time.
    pub fn new(rule: F) -> (custom: Self)
        requires
            total(rule),
            deterministic(rule),
        ensures
            custom.rule() == rule,
    {
        CustomPriority { rule }
    }
}

impl<F: Fn(usize, usize) -> usize> PriorityFunction for CustomPriority<F> {
    open spec fn spec_priority(&self, access_count: nat, size: nat) -> nat {
        (choose|score: usize| #[trigger]
            self.rule().ensures((access_count as usize, size as usize), score)) as nat
    }

    fn priority(&self, access_count: usize, size: usize) -> (score: usize)
        ensures
            self.rule().ensures((access_count, size), score),
    {
        proof {
            use_type_invariant(self);
        }
        (self.rule)(access_count, size)
    }
}

/// Scores a file by the balanced rule.
pub fn balanced_priority(access_count: usize, size: usize) -> (score: usize)
    ensures
        score == balanced_score(access_count as nat, size as nat),
{
    match isqrt(size).checked_mul(access_count) {
        Some(product) => product,
        None => usize::MAX,
    }
}

/// Scores a file by its access count alone, whatever its size.
pub fn access_priority(access_count: usize, size: usize) -> (score: usize)
    ensures
        score == access_count,
{
    access_count
}

/// The balanced rule never scores a file lower for having been accessed more
/// often: with the size fixed, the score does not decrease as the access count
/// grows.
pub proof fn lemma_balanced_priority_monotonic(fewer: nat, more: nat, size: nat)
    requires
        fewer <= more,
    ensures
        balanced_score(fewer, size) <= balanced_score(more, size),
{
    let root = sqrt_floor(size);
    assert(root * fewer <= root * more) by (nonlinear_arith)
        requires
            fewer <= more,
    ;
}

} // verus!
