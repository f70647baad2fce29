//! Basis blades of a Clifford algebra, indexed as bit sets.
//!
//! In an algebra of `n` dimensions there are `2^n` basis blades; blade `i`
//! is the product of the basis vectors whose bits are set in `i`, and its
//! grade is the number of those bits. The grade-`k` blades are counted by the
//! binomial coefficient `C(n, k)`.

use vstd::arithmetic::power2::pow2;
use vstd::prelude::*;

verus! {

/// The number of set bits of `i`.
pub open spec fn popcount(i: nat) -> nat
    decreases i,
{
    if i == 0 {
        0
    } else {
        (i % 2) + popcount(i / 2)
    }
}

/// The grade of basis blade `blade_index`: the number of its set bits.
pub fn blade_grade(blade_index: usize) -> (r: u32)
    ensures
        r == popcount(blade_index as nat),
{
    proof {
        lemma_popcount_bound(blade_index as nat);
    }
    let mut rest: usize = blade_index;
    let mut count: u32 = 0;
    while rest > 0
        invariant
            count + popcount(rest as nat) == popcount(blade_index as nat),
            popcount(blade_index as nat) <= 64,
        decreases rest,
    {
        count = count + (rest % 2) as u32;
        rest = rest / 2;
    }
    count
}

/// A number that fits a `usize` has at most 64 set bits.
proof fn lemma_popcount_bound(i: nat)
    requires
        i <= usize::MAX,
    ensures
        popcount(i) <= 64,
{
    vstd::arithmetic::power2::lemma2_to64();
    vstd::arithmetic::power2::lemma2_to64_rest();
    lemma_popcount_le_bits(i, 64);
}

/// A number below `2^b` has at most `b` set bits.
proof fn lemma_popcount_le_bits(i: nat, b: nat)
    requires
        i < pow2(b),
    ensures
        popcount(i) <= b,
    decreases b,
{
    if i > 0 {
        if b == 0 {
            vstd::arithmetic::power2::lemma2_to64();
            assert(false);
        } else {
            vstd::arithmetic::power2::lemma_pow2_unfold(b);
            assert(i / 2 < pow2((b - 1) as nat));
            lemma_popcount_le_bits(i / 2, (b - 1) as nat);
        }
    }
}

/// The binomial coefficient `C(n, k)`, by Pascal's rule.
pub open spec fn binom(n: nat, k: nat) -> nat
    decreases n,
{
    if k == 0 {
        1
    } else if n == 0 {
        0
    } else {
        binom((n - 1) as nat, (k - 1) as nat) + binom((n - 1) as nat, k)
    }
}

/// There is no way to choose more than `n` of `n`.
pub proof fn lemma_binom_above(n: nat, k: nat)
    requires
        k > n,
    ensures
        binom(n, k) == 0,
    decreases n,
{
    if n > 0 {
        lemma_binom_above((n - 1) as nat, (k - 1) as nat);
        lemma_binom_above((n - 1) as nat, k);
    }
}

/// There is one way to choose all `n` of `n`.
pub proof fn lemma_binom_all(n: nat)
    ensures
        binom(n, n) == 1,
    decreases n,
{
    if n > 0 {
        lemma_binom_all((n - 1) as nat);
        lemma_binom_above((n - 1) as nat, n);
    }
}

/// Choosing `k` of `n` is choosing the `n - k` left out.
pub proof fn lemma_binom_symmetric(n: nat, k: nat)
    requires
        k <= n,
    ensures
        binom(n, k) == binom(n, (n - k) as nat),
    decreases n,
{
    if k == 0 {
        lemma_binom_all(n);
    } else if k == n {
        lemma_binom_all(n);
    } else {
        lemma_binom_symmetric((n - 1) as nat, (k - 1) as nat);
        lemma_binom_symmetric((n - 1) as nat, k);
        assert((n - 1 - (k - 1)) as nat == (n - k) as nat);
    }
}

/// The step from `C(n, i)` to `C(n, i + 1)`:
/// `C(n, i + 1) * (i + 1) == C(n, i) * (n - i)`.
pub proof fn lemma_binom_step(n: nat, i: nat)
    requires
        i <= n,
    ensures
        binom(n, i + 1) * (i + 1) == binom(n, i) * (n - i),
    decreases n,
{
    if i == n {
        lemma_binom_above(n, i + 1);
        assert(binom(n, i + 1) * (i + 1) == 0);
        assert(binom(n, i) * (n - i) == 0);
    } else {
        let m = (n - 1) as nat;
        lemma_binom_step(m, i);
        // C(n, i+1)(i+1) = C(m, i)(i+1) + C(m, i+1)(i+1) = C(m, i)(i+1) + C(m, i)(m-i) = C(m, i) n
        assert(binom(n, i + 1) * (i + 1) == binom(m, i) * n) by (nonlinear_arith)
            requires
                binom(n, i + 1) == binom(m, i) + binom(m, i + 1),
                binom(m, i + 1) * (i + 1) == binom(m, i) * (m - i),
                m + 1 == n,
        ;
        if i == 0 {
            assert(binom(n, 0) == 1 && binom(m, 0) == 1);
        } else {
            lemma_binom_step(m, (i - 1) as nat);
            assert(binom(n, i) * (n - i) == binom(m, i) * n) by (nonlinear_arith)
                requires
                    binom(n, i) == binom(m, (i - 1) as nat) + binom(m, i),
                    binom(m, i) * i == binom(m, (i - 1) as nat) * (m - (i - 1)),
                    m + 1 == n,
                    i >= 1,
            ;
        }
    }
}

/// The smaller of `k` and `n - k`: the number of steps of `binomial`.
pub open spec fn binomial_steps(n: nat, k: nat) -> nat {
    if k < n - k {
        k
    } else {
        (n - k) as nat
    }
}

/// Every intermediate product of `binomial(n, k)` fits a `usize`.
pub open spec fn binomial_fits(n: nat, k: nat) -> bool {
    forall|i: nat| i < binomial_steps(n, k) ==> #[trigger] binom(n, i) * (n - i) <= usize::MAX
}

/// The binomial coefficient `C(n, k)`, computed as a running product. Each
/// intermediate product must fit a `usize`, as the multiplication would
/// overflow otherwise.
fn binomial(n: u32, k: u32) -> (r: usize)
    requires
        k <= n ==> binomial_fits(n as nat, k as nat),
    ensures
        r == binom(n as nat, k as nat),
{
    if k > n {
        proof {
            lemma_binom_above(n as nat, k as nat);
        }
        return 0;
    }
    if k == 0 || k == n {
        proof {
            lemma_binom_all(n as nat);
        }
        return 1;
    }
    let steps: usize = if k < n - k {
        k as usize
    } else {
        (n - k) as usize
    };
    let nn: usize = n as usize;
    let mut result: usize = 1;
    let mut i: usize = 0;
    while i < steps
        invariant
            i <= steps,
            steps == binomial_steps(n as nat, k as nat),
            nn == n,
            steps <= n,
            binomial_fits(n as nat, k as nat),
            result == binom(n as nat, i as nat),
        decreases steps - i,
    {
        assert(binom(n as nat, i as nat) * (n - i) <= usize::MAX);
        let num = result * (nn - i);
        proof {
            lemma_binom_step(n as nat, i as nat);
            vstd::arithmetic::div_mod::lemma_div_by_multiple(binom(n as nat, (i + 1) as nat) as int, (i + 1) as int);
        }
        result = num / (i + 1);
        i += 1;
    }
    proof {
        if steps != k {
            lemma_binom_symmetric(n as nat, k as nat);
        }
    }
    result
}

/// The number of basis blades of grade `grade` in `dimension` dimensions:
/// `C(dimension, grade)`, zero above the dimension.
pub fn blades_at_grade_count(dimension: u32, grade: u32) -> (r: usize)
    requires
        grade <= dimension ==> binomial_fits(dimension as nat, grade as nat),
    ensures
        r == binom(dimension as nat, grade as nat),
{
    if grade > dimension {
        proof {
            lemma_binom_above(dimension as nat, grade as nat);
        }
        return 0;
    }
    binomial(dimension, grade)
}

/// The number of basis blades of grade `grade` in `dimension` dimensions,
/// or `None` where computing it as a running product would overflow a
/// `usize` (where `blades_at_grade_count` may not be called).
pub fn checked_blades_at_grade_count(dimension: u32, grade: u32) -> (r: Option<usize>)
    ensures
        match r {
            Some(c) => c == binom(dimension as nat, grade as nat),
            None => grade <= dimension && !binomial_fits(dimension as nat, grade as nat),
        },
        grade > dimension || binomial_fits(dimension as nat, grade as nat) ==> r is Some,
{
    let n = dimension;
    let k = grade;
    if k > n {
        proof {
            lemma_binom_above(n as nat, k as nat);
        }
        return Some(0);
    }
    if k == 0 || k == n {
        proof {
            lemma_binom_all(n as nat);
        }
        return Some(1);
    }
    let steps: usize = if k < n - k {
        k as usize
    } else {
        (n - k) as usize
    };
    let nn: usize = n as usize;
    let mut result: usize = 1;
    let mut i: usize = 0;
    while i < steps
        invariant
            i <= steps,
            steps == binomial_steps(n as nat, k as nat),
            nn == n,
            steps <= n,
            result == binom(n as nat, i as nat),
            n == dimension,
            k == grade,
            k <= n,
        decreases steps - i,
    {
        let num = match result.checked_mul(nn - i) {
            Some(v) => v,
            None => {
                proof {
                    let (nn0, ii0) = (n as nat, i as nat);
                    assert(!(binom(nn0, ii0) * (nn0 - ii0) <= usize::MAX));
                    assert(ii0 < binomial_steps(nn0, k as nat));
                    assert(!binomial_fits(nn0, k as nat));
                }
                return None;
            },
        };
        proof {
            lemma_binom_step(n as nat, i as nat);
            vstd::arithmetic::div_mod::lemma_div_by_multiple(binom(n as nat, (i + 1) as nat) as int, (i + 1) as int);
        }
        result = num / (i + 1);
        i += 1;
    }
    proof {
        if steps != k {
            lemma_binom_symmetric(n as nat, k as nat);
        }
    }
    Some(result)
}

/// The blade indices below `total` whose grade is `grade`, in increasing
/// order.
pub open spec fn indices_of_grade(total: nat, grade: nat) -> Seq<usize>
    decreases total,
{
    if total == 0 {
        Seq::empty()
    } else {
        let i = (total - 1) as nat;
        indices_of_grade(i, grade) + if popcount(i) == grade {
            seq![i as usize]
        } else {
            Seq::empty()
        }
    }
}

/// The indices of all basis blades of grade `grade` in `dimension`
/// dimensions, in increasing order. The `2^dimension` blades must be
/// countable in a `usize`, as the shift would overflow otherwise.
pub fn grade_indices(dimension: u32, grade: u32) -> (r: Vec<usize>)
    requires
        dimension < usize::BITS,
    ensures
        r@ == indices_of_grade(pow2(dimension as nat), grade as nat),
{
    let d = dimension as usize;
    proof {
        vstd::bits::lemma_usize_pow2_no_overflow(d as nat);
        vstd::arithmetic::mul::lemma_mul_basics(pow2(d as nat) as int);
        vstd::bits::lemma_usize_shl_is_mul(1, d);
    }
    let total: usize = 1usize << d;
    let mut result: Vec<usize> = Vec::new();
    let mut i: usize = 0;
    while i < total
        invariant
            i <= total,
            total == pow2(dimension as nat),
            result@ == indices_of_grade(i as nat, grade as nat),
        decreases total - i,
    {
        let g = blade_grade(i);
        if g == grade {
            result.push(i);
        }
        proof {
            assert(indices_of_grade((i + 1) as nat, grade as nat) == indices_of_grade(i as nat, grade as nat) + if popcount(i as nat) == grade {
                seq![i]
            } else {
                Seq::<usize>::empty()
            });
            if g != grade {
                assert(result@ =~= result@ + Seq::<usize>::empty());
            }
        }
        i += 1;
    }
    result
}


/// Setting the bit above the `n` low bits adds one to the grade.
proof fn lemma_popcount_high_bit(n: nat, j: nat)
    requires
        j < pow2(n),
    ensures
        popcount(pow2(n) + j) == popcount(j) + 1,
    decreases n,
{
    vstd::arithmetic::power2::lemma2_to64();
    if n > 0 {
        let m = (n - 1) as nat;
        vstd::arithmetic::power2::lemma_pow2_unfold(n);
        let h = pow2(m);
        assert((2 * h + j) % 2 == j % 2 && (2 * h + j) / 2 == h + j / 2) by {
            vstd::arithmetic::div_mod::lemma_fundamental_div_mod(j as int, 2);
        }
        assert(j / 2 < h);
        lemma_popcount_high_bit(m, j / 2);
    }
}

/// Counting the grade-`g` indices below `2^n + m`: those below `2^n`, and
/// those of grade `g - 1` below `m` shifted by the high bit.
proof fn lemma_count_upper(n: nat, m: nat, g: nat)
    requires
        m <= pow2(n),
    ensures
        indices_of_grade(pow2(n) + m, g).len() == indices_of_grade(pow2(n), g).len() + if g == 0 {
            0
        } else {
            indices_of_grade(m, (g - 1) as nat).len()
        },
    decreases m,
{
    if m > 0 {
        let j = (m - 1) as nat;
        lemma_count_upper(n, j, g);
        lemma_popcount_high_bit(n, j);
        assert((pow2(n) + m - 1) as nat == pow2(n) + j);
    }
}

/// The grade-`k` blades of an `n`-dimensional algebra number `C(n, k)`:
/// what `grade_indices` returns is as long as what `blades_at_grade_count`
/// counts.
pub proof fn law_grade_count(n: nat, k: nat)
    ensures
        indices_of_grade(pow2(n), k).len() == binom(n, k),
    decreases n,
{
    vstd::arithmetic::power2::lemma2_to64();
    if n == 0 {
        assert(indices_of_grade(1, k) == indices_of_grade(0, k) + if popcount(0) == k {
            seq![0usize]
        } else {
            Seq::<usize>::empty()
        });
    } else {
        let m = (n - 1) as nat;
        vstd::arithmetic::power2::lemma_pow2_unfold(n);
        lemma_count_upper(m, pow2(m), k);
        assert(pow2(m) + pow2(m) == pow2(n));
        law_grade_count(m, k);
        if k > 0 {
            law_grade_count(m, (k - 1) as nat);
        }
    }
}

} // verus!
