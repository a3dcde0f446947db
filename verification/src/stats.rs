use vstd::prelude::*;

verus! {

/// Lengths are kept below this limit so that the exact bound check can be
/// carried out in 128-bit arithmetic without overflow.
pub const LENGTH_LIMIT: usize = 0x8000_0000;

/// The sum of a sequence of integers.
pub open spec fn sum_of(s: Seq<int>) -> int
    decreases s.len(),
{
    if s.len() == 0 {
        0
    } else {
        sum_of(s.drop_last()) + s.last()
    }
}

/// The sum of the squares of a sequence of integers.
pub open spec fn sum_sq_of(s: Seq<int>) -> int
    decreases s.len(),
{
    if s.len() == 0 {
        0
    } else {
        sum_sq_of(s.drop_last()) + s.last() * s.last()
    }
}

/// Whether a length `x` lies within the two-sigma acceptance interval of a
/// length distribution with `n` observations, sum `s` and sum of squares `q`.
///
/// With mean = s/n and population variance var = q/n - (s/n)^2, the interval
/// is [mean - 2*sd, mean + 2*sd] with sd = sqrt(var). Membership of x is
/// |x - mean| <= 2*sd, which, squared and multiplied by n^2 (n > 0), is
/// exactly (n*x - s)^2 <= 4*(n*q - s*s). This integer form is exact: no
/// rounding is involved.
pub open spec fn length_accepted(n: int, s: int, q: int, x: int) -> bool {
    (n * x - s) * (n * x - s) <= 4 * (n * q - s * s)
}

/// For every value x, n*x^2 - 2*s*x + q = sum over the observations y of
/// (x - y)^2, which is non-negative.
proof fn lemma_point_quadratic(s: Seq<int>, x: int)
    ensures
        (s.len() as int) * (x * x) - 2 * sum_of(s) * x + sum_sq_of(s) >= 0,
    decreases s.len(),
{
    if s.len() == 0 {
        assert((s.len() as int) * (x * x) == 0 && 2 * sum_of(s) * x == 0) by (nonlinear_arith)
            requires
                s.len() == 0,
                sum_of(s) == 0,
        ;
    } else {
        let t = s.drop_last();
        let y = s.last();
        lemma_point_quadratic(t, x);
        let m = t.len() as int;
        let st = sum_of(t);
        let qt = sum_sq_of(t);
        assert(s.len() as int == m + 1);
        assert(sum_of(s) == st + y);
        assert(sum_sq_of(s) == qt + y * y);
        assert((m + 1) * (x * x) - 2 * (st + y) * x + (qt + y * y) >= 0) by (nonlinear_arith)
            requires
                m * (x * x) - 2 * st * x + qt >= 0,
        ;
    }
}

/// The discriminant n*q - s^2 of a length distribution is non-negative
/// (the Cauchy-Schwarz inequality): the population variance is well defined.
pub proof fn lemma_cauchy_schwarz(s: Seq<int>)
    ensures
        (s.len() as int) * sum_sq_of(s) - sum_of(s) * sum_of(s) >= 0,
    decreases s.len(),
{
    if s.len() == 0 {
        assert((s.len() as int) * sum_sq_of(s) == 0 && sum_of(s) * sum_of(s) == 0)
            by (nonlinear_arith)
            requires
                s.len() == 0,
                sum_of(s) == 0,
                sum_sq_of(s) == 0,
        ;
    } else {
        let t = s.drop_last();
        let y = s.last();
        lemma_cauchy_schwarz(t);
        lemma_point_quadratic(t, y);
        let m = t.len() as int;
        let st = sum_of(t);
        let qt = sum_sq_of(t);
        assert(s.len() as int == m + 1);
        assert(sum_of(s) == st + y);
        assert(sum_sq_of(s) == qt + y * y);
        assert((m + 1) * (qt + y * y) - (st + y) * (st + y) >= 0) by (nonlinear_arith)
            requires
                m * qt - st * st >= 0,
                m * (y * y) - 2 * st * y + qt >= 0,
        ;
    }
}

/// Elementwise bounds give bounds on the sum and the sum of squares.
pub proof fn lemma_sum_bounds(s: Seq<int>, b: int)
    requires
        b >= 1,
        forall|i: int| 0 <= i < s.len() ==> 0 <= #[trigger] s[i] < b,
    ensures
        0 <= sum_of(s) <= (s.len() as int) * (b - 1),
        0 <= sum_sq_of(s) <= (s.len() as int) * ((b - 1) * (b - 1)),
    decreases s.len(),
{
    if s.len() == 0 {
        assert((s.len() as int) * (b - 1) == 0 && (s.len() as int) * ((b - 1) * (b - 1)) == 0)
            by (nonlinear_arith)
            requires
                s.len() == 0,
        ;
    } else {
        let t = s.drop_last();
        let y = s.last();
        assert(forall|i: int| 0 <= i < t.len() ==> 0 <= #[trigger] t[i] < b);
        lemma_sum_bounds(t, b);
        let m = t.len() as int;
        let st = sum_of(t);
        let qt = sum_sq_of(t);
        assert(s.len() as int == m + 1);
        assert(sum_of(s) == st + y);
        assert(sum_sq_of(s) == qt + y * y);
        assert(0 <= y <= b - 1);
        assert(0 <= st + y <= (m + 1) * (b - 1)) by (nonlinear_arith)
            requires
                0 <= st <= m * (b - 1),
                0 <= y <= b - 1,
        ;
        assert(0 <= qt + y * y <= (m + 1) * ((b - 1) * (b - 1))) by (nonlinear_arith)
            requires
                0 <= qt <= m * ((b - 1) * (b - 1)),
                0 <= y <= b - 1,
        ;
    }
}

/// For sequences with all elements equal to `k`, the sum is `len * k` and the
/// sum of squares is `len * k^2`.
proof fn lemma_sum_const(s: Seq<int>, k: int)
    requires
        forall|i: int| 0 <= i < s.len() ==> s[i] == k,
    ensures
        sum_of(s) == (s.len() as int) * k,
        sum_sq_of(s) == (s.len() as int) * (k * k),
    decreases s.len(),
{
    if s.len() == 0 {
        assert((s.len() as int) * k == 0 && (s.len() as int) * (k * k) == 0) by (nonlinear_arith)
            requires
                s.len() == 0,
        ;
    } else {
        let t = s.drop_last();
        assert(forall|i: int| 0 <= i < t.len() ==> t[i] == k);
        lemma_sum_const(t, k);
        let m = t.len() as int;
        assert(s.last() == k);
        assert(m * k + k == (m + 1) * k && m * (k * k) + k * k == (m + 1) * (k * k))
            by (nonlinear_arith);
        assert(s.len() as int == m + 1);
    }
}

/// The length statistics of one run: the number of records, the sum of their
/// lengths and the sum of the squared lengths, together with the (ghost)
/// sequence of lengths they were computed from. These three integers determine
/// the mean, the population standard deviation and the two-sigma acceptance
/// bounds exactly.
pub struct ReadLengthStats {
    pub count: usize,
    pub sum: u64,
    pub sum_sq: u128,
    pub lengths: Ghost<Seq<int>>,
}

impl ReadLengthStats {
    /// The aggregates agree with the recorded non-empty sequence of lengths,
    /// and every length is below `LENGTH_LIMIT`.
    pub open spec fn wf(&self) -> bool {
        &&& self.lengths@.len() == self.count
        &&& 0 < self.count < LENGTH_LIMIT
        &&& forall|i: int| 0 <= i < self.lengths@.len() ==> 0 <= #[trigger] self.lengths@[i] < LENGTH_LIMIT
        &&& self.sum == sum_of(self.lengths@)
        &&& self.sum_sq == sum_sq_of(self.lengths@)
    }

    /// Whether a record of length `x` passes the two-sigma length check.
    pub open spec fn accepts(&self, x: int) -> bool {
        length_accepted(self.count as int, self.sum as int, self.sum_sq as int, x)
    }

    /// Computes the length statistics of a non-empty sequence of lengths:
    /// the count, the sum and the sum of squares, from which the mean, the
    /// population standard deviation and the two-sigma bounds are determined.
    pub fn get_read_length_stats(lengths: &Vec<usize>) -> (stats: ReadLengthStats)
        requires
            0 < lengths@.len() < LENGTH_LIMIT,
            forall|i: int| 0 <= i < lengths@.len() ==> #[trigger] lengths@[i] < LENGTH_LIMIT,
        ensures
            stats.wf(),
            stats.count == lengths@.len(),
            stats.lengths@ == lengths@.map(|i: int, v: usize| v as int),
    {
        let ghost gs: Seq<int> = lengths@.map(|i: int, v: usize| v as int);
        let mut sum: u64 = 0;
        let mut sum_sq: u128 = 0;
        let mut i: usize = 0;
        while i < lengths.len()
            invariant
                0 <= i <= lengths@.len(),
                lengths@.len() < LENGTH_LIMIT,
                forall|j: int| 0 <= j < lengths@.len() ==> #[trigger] lengths@[j] < LENGTH_LIMIT,
                gs == lengths@.map(|j: int, v: usize| v as int),
                sum == sum_of(gs.take(i as int)),
                sum_sq == sum_sq_of(gs.take(i as int)),
                sum <= (i as int) * 0x7fff_ffff,
                sum_sq <= (i as int) * 0x3fff_ffff_0000_0001,
            decreases lengths@.len() - i,
        {
            let x = lengths[i];
            let x128 = x as u128;
            assert(x128 * x128 <= 0x3fff_ffff_0000_0001) by (nonlinear_arith)
                requires
                    x128 <= 0x7fff_ffff,
            ;
            proof {
                assert(gs.take(i + 1).drop_last() =~= gs.take(i as int));
                assert(gs.take(i + 1).last() == gs[i as int]);
            }
            sum = sum + (x as u64);
            sum_sq = sum_sq + x128 * x128;
            i = i + 1;
        }
        proof {
            assert(gs.take(lengths@.len() as int) =~= gs);
        }
        ReadLengthStats { count: lengths.len(), sum, sum_sq, lengths: Ghost(gs) }
    }

    /// Decides the two-sigma length check for one record length, in exact
    /// 128-bit integer arithmetic.
    pub fn length_within_bounds(&self, len: usize) -> (r: bool)
        requires
            self.wf(),
            len < LENGTH_LIMIT,
        ensures
            r == self.accepts(len as int),
    {
        proof {
            lemma_sum_bounds(self.lengths@, LENGTH_LIMIT as int);
            assert(sum_of(self.lengths@) <= (self.count as int) * 0x7fff_ffff);
            assert(sum_sq_of(self.lengths@) <= (self.count as int) * 0x3fff_ffff_0000_0001);
            assert((self.count as int) * 0x7fff_ffff < 0x4000_0000_0000_0000) by (nonlinear_arith)
                requires
                    0 <= (self.count as int) < 0x8000_0000,
            ;
            assert((self.count as int) * 0x3fff_ffff_0000_0001 <= 0x8000_0000
                * 0x3fff_ffff_0000_0001) by (nonlinear_arith)
                requires
                    0 <= (self.count as int) <= 0x8000_0000,
            ;
        }
        let n = self.count as i128;
        let s = self.sum as i128;
        let q = self.sum_sq as i128;
        let x = len as i128;
        assert(n * x < 0x4000_0000_0000_0000) by (nonlinear_arith)
            requires
                0 <= n < 0x8000_0000,
                0 <= x < 0x8000_0000,
        ;
        assert(n * x >= 0) by (nonlinear_arith)
            requires
                0 <= n,
                0 <= x,
        ;
        let d = n * x - s;
        assert(d * d < 0x1000_0000_0000_0000_0000_0000_0000_0000) by (nonlinear_arith)
            requires
                -0x4000_0000_0000_0000 < d < 0x4000_0000_0000_0000,
        ;
        assert(d * d >= 0) by (nonlinear_arith);
        assert(n * q <= 0x8000_0000 * 0x3fff_ffff_0000_0001 * 0x8000_0000) by (nonlinear_arith)
            requires
                0 <= n <= 0x8000_0000,
                0 <= q <= 0x8000_0000 * 0x3fff_ffff_0000_0001,
        ;
        assert(n * q >= 0) by (nonlinear_arith)
            requires
                0 <= n,
                0 <= q,
        ;
        assert(s * s >= 0) by (nonlinear_arith);
        assert(s * s < 0x1000_0000_0000_0000_0000_0000_0000_0000) by (nonlinear_arith)
            requires
                0 <= s < 0x4000_0000_0000_0000,
        ;
        let disc = n * q - s * s;
        d * d <= 4 * disc
    }
}

/// For any statistics built from a non-empty set of lengths, the acceptance
/// interval [mean - 2*sd, mean + 2*sd] is well defined and non-empty and
/// contains the mean: the discriminant n*q - s^2 (that is, n^2 * variance) is
/// non-negative, so min_allowed <= mean <= max_allowed; in particular every
/// length equal to the mean is accepted.
pub proof fn lemma_bounds_contain_mean(stats: ReadLengthStats)
    requires
        stats.wf(),
    ensures
        (stats.count as int) * (stats.sum_sq as int) - (stats.sum as int) * (stats.sum as int)
            >= 0,
        forall|x: int| (stats.count as int) * x == stats.sum as int ==> stats.accepts(x),
{
    lemma_cauchy_schwarz(stats.lengths@);
    let n = stats.count as int;
    let s = stats.sum as int;
    let q = stats.sum_sq as int;
    assert forall|x: int| n * x == s implies stats.accepts(x) by {
        assert((n * x - s) * (n * x - s) == 0) by (nonlinear_arith)
            requires
                n * x == s,
        ;
    }
}

/// Statistics over lengths of zero variance (every length equal to `k`) have
/// standard deviation zero, so min_allowed == max_allowed == k and a length is
/// accepted if and only if it is exactly k.
pub proof fn lemma_zero_variance(stats: ReadLengthStats, k: int)
    requires
        stats.wf(),
        forall|i: int| 0 <= i < stats.lengths@.len() ==> stats.lengths@[i] == k,
    ensures
        (stats.count as int) * (stats.sum_sq as int) == (stats.sum as int) * (stats.sum as int),
        forall|x: int| stats.accepts(x) <==> x == k,
{
    lemma_sum_const(stats.lengths@, k);
    let n = stats.count as int;
    let s = stats.sum as int;
    let q = stats.sum_sq as int;
    assert(n * q == s * s) by (nonlinear_arith)
        requires
            s == n * k,
            q == n * (k * k),
    ;
    assert forall|x: int| stats.accepts(x) <==> x == k by {
        assert((n * x - s) * (n * x - s) <= 4 * (n * q - s * s) <==> x == k) by (nonlinear_arith)
            requires
                s == n * k,
                n * q == s * s,
                n >= 1,
        ;
    }
}

} // verus!
