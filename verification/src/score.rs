use vstd::prelude::*;

verus! {

use crate::BaseT;
use vstd::arithmetic::div_mod::{
    lemma_div_is_ordered,
    lemma_div_multiples_vanish,
    lemma_fundamental_div_mod,
};
use vstd::arithmetic::power2::{lemma2_to64, lemma2_to64_rest, pow2};

/// Fixed-point unit of all similarity values: `SCALE` stands for 1.0.
/// It is divisible by 64, 8 and 3, so the word-level metrics are exact.
pub const SCALE: u64 = 960000000;

/// Fixed-point weight of one bit in the Hamming similarity (`SCALE / 64`).
pub const BIT_UNIT: u64 = SCALE / 64;

/// Fixed-point weight of one byte in the byte-prefix similarity (`SCALE / 8`).
pub const BYTE_UNIT: u64 = SCALE / 8;

/// Similarity of a candidate output column against the true outputs.
/// Payloads are fixed-point values in `0 ..= SCALE`.
#[derive(Debug, Copy, Clone, PartialEq, Eq, Structural)]
pub enum Score {
    HammingDistance(u64),
    AbsDistance(u64),
    RangeDistance(u64),
    Combined(u64),
    Unknown,
    UnSat,
}

impl Default for Score {
    fn default() -> (r: Self)
        ensures
            r == Score::Unknown,
    {
        Score::Unknown
    }
}

/// Number of one bits in the binary representation of `n`.
pub open spec fn popcount(n: nat) -> nat
    decreases n,
{
    if n == 0 {
        0
    } else {
        n % 2 + popcount(n / 2)
    }
}

/// Hamming similarity of two words: one `BIT_UNIT` for every bit position
/// on which they agree.
pub open spec fn hamming_val(x: i64, y: i64) -> int {
    SCALE - popcount(((x as u64) ^ (y as u64)) as nat) * BIT_UNIT
}

/// Ratio min/max of the two words, clamped into `0 ..= SCALE`:
/// `SCALE` when they are equal or the ratio is at least one, 0 when exactly
/// one is zero or the signs differ, and the truncated fixed-point quotient
/// otherwise.
pub open spec fn abs_val(x: i64, y: i64) -> int {
    if x == y {
        SCALE as int
    } else if x == 0 || y == 0 {
        0
    } else if (x < 0) != (y < 0) {
        0
    } else if x < 0 {
        SCALE as int
    } else if x < y {
        x * SCALE / (y as int)
    } else {
        y * SCALE / (x as int)
    }
}

/// Byte `i` of the little-endian representation of `x`.
pub open spec fn le_byte(x: i64, i: int) -> u64 {
    ((x as u64) >> ((8 * i) as u64)) & 0xff
}

/// How many of the first `i` little-endian bytes of `x` and `y` agree.
pub open spec fn count_eq_bytes(x: i64, y: i64, i: int) -> int
    decreases i,
{
    if i <= 0 {
        0
    } else {
        count_eq_bytes(x, y, i - 1) + if le_byte(x, i - 1) == le_byte(y, i - 1) {
            1int
        } else {
            0int
        }
    }
}

/// Byte-prefix similarity: one `BYTE_UNIT` for every agreeing byte.
pub open spec fn range_val(x: i64, y: i64) -> int {
    count_eq_bytes(x, y, 8) * BYTE_UNIT
}

/// Combined similarity of two words: truncated mean of the three metrics.
pub open spec fn combined_val(x: i64, y: i64) -> int {
    (hamming_val(x, y) + abs_val(x, y) + range_val(x, y)) / 3
}

/// Sum of the combined similarities of the first `n` element pairs.
pub open spec fn sum_combined(a: Seq<i64>, b: Seq<i64>, n: int) -> int
    decreases n,
{
    if n <= 0 {
        0
    } else {
        sum_combined(a, b, n - 1) + combined_val(a[n - 1], b[n - 1])
    }
}

/// Combined similarity of two columns: truncated mean of the elementwise
/// combined similarities over the shorter length, 0 for empty columns.
pub open spec fn get_val(a: Seq<i64>, b: Seq<i64>) -> int {
    let m = if a.len() <= b.len() {
        a.len() as int
    } else {
        b.len() as int
    };
    if m == 0 {
        0
    } else {
        sum_combined(a, b, m) / m
    }
}

/// The bits of a word fit in 64 positions, so `popcount` is at most `k` for
/// values below `pow2(k)`.
proof fn lemma_popcount_bound(n: nat, k: nat)
    requires
        n < pow2(k),
    ensures
        popcount(n) <= k,
    decreases k,
{
    if k == 0 {
        assert(pow2(0) == 1) by {
            lemma2_to64();
        }
    } else {
        assert(pow2(k) == 2 * pow2((k - 1) as nat)) by {
            vstd::arithmetic::power2::lemma_pow2_unfold(k);
        }
        lemma_popcount_bound(n / 2, (k - 1) as nat);
    }
}

/// Every word value stays below `pow2(64)`.
proof fn lemma_u64_below_pow2_64(v: u64)
    ensures
        (v as nat) < pow2(64),
{
    lemma2_to64_rest();
}

/// All word-level metrics lie between 0 and `SCALE`.
pub proof fn lemma_metric_bounds(x: i64, y: i64)
    ensures
        0 <= hamming_val(x, y) <= SCALE,
        0 <= abs_val(x, y) <= SCALE,
        0 <= range_val(x, y) <= SCALE,
        0 <= combined_val(x, y) <= SCALE,
{
    let ux = x as u64;
    let uy = y as u64;
    lemma_u64_below_pow2_64(ux ^ uy);
    lemma_popcount_bound(((ux ^ uy) as nat), 64);
    assert(popcount((ux ^ uy) as nat) * BIT_UNIT <= 64 * BIT_UNIT) by (nonlinear_arith)
        requires
            popcount((ux ^ uy) as nat) <= 64,
    ;
    lemma_abs_val_bounds(x, y);
    lemma_count_eq_bytes_bounds(x, y, 8);
    assert(count_eq_bytes(x, y, 8) * BYTE_UNIT <= 8 * BYTE_UNIT) by (nonlinear_arith)
        requires
            count_eq_bytes(x, y, 8) <= 8,
    ;
    assert(range_val(x, y) >= 0) by (nonlinear_arith)
        requires
            count_eq_bytes(x, y, 8) >= 0,
    ;
    let s = hamming_val(x, y) + abs_val(x, y) + range_val(x, y);
    lemma_div_is_ordered(0, s, 3);
    lemma_div_is_ordered(s, 3 * (SCALE as int), 3);
    lemma_div_multiples_vanish(SCALE as int, 3);
}

/// The clamped ratio lies between 0 and `SCALE`.
proof fn lemma_abs_val_bounds(x: i64, y: i64)
    ensures
        0 <= abs_val(x, y) <= SCALE,
{
    if x != y && x != 0 && y != 0 && (x < 0) == (y < 0) && x >= 0 {
        let lo: int = if x < y {
            x as int
        } else {
            y as int
        };
        let hi: int = if x < y {
            y as int
        } else {
            x as int
        };
        assert(0 < lo <= hi);
        assert(lo * SCALE <= hi * SCALE) by (nonlinear_arith)
            requires
                0 < lo <= hi,
        ;
        lemma_div_is_ordered(0, lo * SCALE, hi);
        lemma_div_is_ordered(lo * SCALE, hi * SCALE, hi);
        lemma_div_multiples_vanish(SCALE as int, hi);
    }
}

/// The count of agreeing bytes lies between 0 and the prefix length.
proof fn lemma_count_eq_bytes_bounds(x: i64, y: i64, i: int)
    ensures
        0 <= count_eq_bytes(x, y, i) <= if i <= 0 {
            0int
        } else {
            i
        },
    decreases i,
{
    if i > 0 {
        lemma_count_eq_bytes_bounds(x, y, i - 1);
    }
}

/// On equal words every byte agrees.
proof fn lemma_count_eq_bytes_refl(x: i64, i: int)
    requires
        i >= 0,
    ensures
        count_eq_bytes(x, x, i) == i,
    decreases i,
{
    if i > 0 {
        lemma_count_eq_bytes_refl(x, i - 1);
    }
}

/// The combined similarity of two words is perfect exactly on equal words.
pub proof fn lemma_combined_perfect(x: i64, y: i64)
    ensures
        combined_val(x, y) == SCALE <==> x == y,
{
    lemma_metric_bounds(x, y);
    let ux = x as u64;
    let uy = y as u64;
    if x == y {
        assert(ux ^ uy == 0) by (bit_vector)
            requires
                ux == uy,
        ;
        assert(popcount(0) == 0);
        assert(hamming_val(x, y) == SCALE);
        lemma_count_eq_bytes_refl(x, 8);
        assert(range_val(x, y) == 8 * BYTE_UNIT);
        assert(combined_val(x, y) == (3 * (SCALE as int)) / 3);
        lemma_div_multiples_vanish(SCALE as int, 3);
    } else {
        // Some bit differs, so the Hamming similarity falls short of SCALE
        // and the truncated mean cannot reach it either.
        assert(ux != uy) by (bit_vector)
            requires
                x != y,
                ux == x as u64,
                uy == y as u64,
        ;
        assert(ux ^ uy != 0) by (bit_vector)
            requires
                ux != uy,
        ;
        lemma_popcount_positive((ux ^ uy) as nat);
        assert(popcount((ux ^ uy) as nat) * BIT_UNIT >= BIT_UNIT) by (nonlinear_arith)
            requires
                popcount((ux ^ uy) as nat) >= 1,
        ;
        assert(hamming_val(x, y) <= SCALE - BIT_UNIT);
        let s = hamming_val(x, y) + abs_val(x, y) + range_val(x, y);
        assert(s <= 3 * (SCALE as int) - BIT_UNIT);
        assert(s / 3 < SCALE) by {
            lemma_fundamental_div_mod(s, 3);
            assert(s == 3 * (s / 3) + s % 3);
        }
    }
}

/// A nonzero value has at least one one bit.
proof fn lemma_popcount_positive(n: nat)
    requires
        n > 0,
    ensures
        popcount(n) >= 1,
    decreases n,
{
    if n % 2 == 0 {
        lemma_popcount_positive(n / 2);
    }
}

/// Partial sums of combined similarities are bounded by `n * SCALE` and
/// reach that bound exactly when every summand is perfect.
proof fn lemma_sum_combined_bounds(a: Seq<i64>, b: Seq<i64>, n: int)
    requires
        0 <= n,
        n <= a.len(),
        n <= b.len(),
    ensures
        0 <= sum_combined(a, b, n) <= n * SCALE,
        sum_combined(a, b, n) == n * SCALE <==> (forall|i: int|
            0 <= i < n ==> combined_val(a[i], b[i]) == SCALE),
    decreases n,
{
    if n > 0 {
        lemma_sum_combined_bounds(a, b, n - 1);
        lemma_metric_bounds(a[n - 1], b[n - 1]);
        assert((n - 1) * SCALE == n * SCALE - SCALE) by (nonlinear_arith);
    }
}

/// The column score is perfect exactly on equal, non-empty columns.
pub proof fn lemma_get_perfect(a: Seq<i64>, b: Seq<i64>)
    requires
        a.len() == b.len(),
    ensures
        get_val(a, b) == SCALE <==> (a.len() > 0 && a =~= b),
{
    let m = a.len() as int;
    if m == 0 {
        assert(get_val(a, b) == 0);
    } else {
        lemma_sum_combined_bounds(a, b, m);
        let s = sum_combined(a, b, m);
        if s == m * SCALE {
            lemma_div_multiples_vanish(SCALE as int, m);
            assert(get_val(a, b) == SCALE);
        } else {
            assert(s < m * SCALE);
            assert(s / m < SCALE) by {
                lemma_fundamental_div_mod(s, m);
                assert(s == m * (s / m) + s % m);
                if s / m >= SCALE {
                    assert(m * (s / m) >= m * SCALE) by (nonlinear_arith)
                        requires
                            s / m >= SCALE,
                            m > 0,
                    ;
                }
            }
        }
        if get_val(a, b) == SCALE {
            assert(forall|i: int| 0 <= i < m ==> combined_val(a[i], b[i]) == SCALE);
            assert forall|i: int| 0 <= i < m implies a[i] == b[i] by {
                lemma_combined_perfect(a[i], b[i]);
            }
            assert(a =~= b);
        }
        if a =~= b {
            assert forall|i: int| 0 <= i < m implies combined_val(a[i], b[i]) == SCALE by {
                lemma_combined_perfect(a[i], b[i]);
            }
            assert(s == m * SCALE);
            lemma_div_multiples_vanish(SCALE as int, m);
        }
    }
}


/// Column scores lie between 0 and `SCALE`.
pub proof fn lemma_get_val_bounds(a: Seq<i64>, b: Seq<i64>)
    ensures
        0 <= get_val(a, b) <= SCALE,
{
    let m = if a.len() <= b.len() {
        a.len() as int
    } else {
        b.len() as int
    };
    if m > 0 {
        lemma_sum_combined_bounds(a, b, m);
        let s = sum_combined(a, b, m);
        lemma_div_is_ordered(0, s, m);
        lemma_div_is_ordered(s, m * SCALE, m);
        lemma_div_multiples_vanish(SCALE as int, m);
    }
}

/// Number of one bits of a word, counted bit by bit.
fn popcount64(x: u64) -> (c: u64)
    ensures
        c == popcount(x as nat),
        c <= 64,
{
    proof {
        lemma_u64_below_pow2_64(x);
        lemma_popcount_bound(x as nat, 64);
    }
    let mut v = x;
    let mut c: u64 = 0;
    while v != 0
        invariant
            c + popcount(v as nat) == popcount(x as nat),
            popcount(x as nat) <= 64,
        decreases v,
    {
        proof {
            assert((v & 1) == v % 2) by (bit_vector);
            assert((v >> 1u64) == v / 2) by (bit_vector);
        }
        c = c + (v & 1);
        v = v >> 1u64;
    }
    c
}

impl Score {
    /// Hamming similarity of a tested output against the true output.
    pub fn hamming_distance(result_test: BaseT, result_true: BaseT) -> (r: Score)
        ensures
            r == Score::HammingDistance(hamming_val(result_test, result_true) as u64),
    {
        proof {
            lemma_metric_bounds(result_test, result_true);
        }
        let ux = #[verifier::truncate] (result_test as u64);
        let uy = #[verifier::truncate] (result_true as u64);
        let pc = popcount64(ux ^ uy);
        Score::HammingDistance(SCALE - pc * BIT_UNIT)
    }

    /// Clamped min/max ratio of a tested output against the true output.
    pub fn abs_distance(result_test: BaseT, result_true: BaseT) -> (r: Score)
        ensures
            r == Score::AbsDistance(abs_val(result_test, result_true) as u64),
    {
        proof {
            lemma_metric_bounds(result_test, result_true);
        }
        if result_test == result_true {
            Score::AbsDistance(SCALE)
        } else if result_test == 0 || result_true == 0 {
            Score::AbsDistance(0)
        } else if (result_test < 0) != (result_true < 0) {
            Score::AbsDistance(0)
        } else if result_test < 0 {
            Score::AbsDistance(SCALE)
        } else {
            let (lo, hi) = if result_test < result_true {
                (result_test, result_true)
            } else {
                (result_true, result_test)
            };
            let q = (lo as u128) * (SCALE as u128) / (hi as u128);
            Score::AbsDistance(q as u64)
        }
    }

    /// Byte-prefix similarity of a tested output against the true output.
    pub fn range_distance(result_test: BaseT, result_true: BaseT) -> (r: Score)
        ensures
            r == Score::RangeDistance(range_val(result_test, result_true) as u64),
    {
        proof {
            lemma_metric_bounds(result_test, result_true);
            lemma_count_eq_bytes_bounds(result_test, result_true, 8);
        }
        let ux = #[verifier::truncate] (result_test as u64);
        let uy = #[verifier::truncate] (result_true as u64);
        let mut cnt: u64 = 0;
        let mut i: u64 = 0;
        while i < 8
            invariant
                i <= 8,
                ux == result_test as u64,
                uy == result_true as u64,
                cnt == count_eq_bytes(result_test, result_true, i as int),
                0 <= cnt <= i,
        decreases 8 - i,
        {
            let s: u64 = 8 * i;
            let bx = (ux >> s) & 0xff;
            let by = (uy >> s) & 0xff;
            if bx == by {
                cnt = cnt + 1;
            }
            i = i + 1;
        }
        Score::RangeDistance(cnt * BYTE_UNIT)
    }

    /// Mean of the three word-level metrics.
    pub fn combined(result_test: BaseT, result_true: BaseT) -> (r: Score)
        ensures
            r == Score::Combined(combined_val(result_test, result_true) as u64),
    {
        proof {
            lemma_metric_bounds(result_test, result_true);
        }
        let mut result: u64 = 0;
        if let Score::HammingDistance(x) = Score::hamming_distance(result_test, result_true) {
            result = result + x;
        }
        if let Score::AbsDistance(x) = Score::abs_distance(result_test, result_true) {
            result = result + x;
        }
        if let Score::RangeDistance(x) = Score::range_distance(result_test, result_true) {
            result = result + x;
        }
        Score::Combined(result / 3)
    }

    /// Combined similarity of a whole candidate column against the true
    /// output column, averaged over the shorter of the two lengths.
    pub fn get(result_test: &Vec<BaseT>, result_true: &Vec<BaseT>) -> (r: Score)
        ensures
            r == Score::Combined(get_val(result_test@, result_true@) as u64),
    {
        let m = if result_test.len() <= result_true.len() {
            result_test.len()
        } else {
            result_true.len()
        };
        if m == 0 {
            return Score::Combined(0);
        }
        let mut sum: u128 = 0;
        let mut i: usize = 0;
        while i < m
            invariant
                i <= m,
                m <= result_test@.len(),
                m <= result_true@.len(),
                sum == sum_combined(result_test@, result_true@, i as int),
                sum <= (i as int) * SCALE,
            decreases m - i,
        {
            proof {
                lemma_metric_bounds(result_test@[i as int], result_true@[i as int]);
                assert((i as int) * SCALE + SCALE == ((i + 1) as int) * SCALE) by (nonlinear_arith);
            }
            if let Score::Combined(x) = Score::combined(result_test[i], result_true[i]) {
                sum = sum + (x as u128);
            }
            i = i + 1;
        }
        proof {
            lemma_sum_combined_bounds(result_test@, result_true@, m as int);
            lemma_div_is_ordered(sum as int, (m as int) * SCALE, m as int);
            lemma_div_multiples_vanish(SCALE as int, m as int);
            lemma_div_is_ordered(0, sum as int, m as int);
        }
        let avg = sum / (m as u128);
        Score::Combined(avg as u64)
    }
}

} // verus!

