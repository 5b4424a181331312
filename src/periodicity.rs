use vstd::prelude::*;

use crate::options::WORLD_SIZE;

verus! {

/// Linear stride between two sampled cells of a snapshot.
pub const SAMPLE_STRIDE: usize = 6;

/// Number of generations captured in one scoring pass.
pub const SCORE_GENERATIONS: usize = 100;

/// Largest lattice side a scorer accepts.
pub const MAX_SIDE: usize = 32768;

/// The value of `pos` in `g` is the same as `period` generations later, for
/// every generation `g` of the history `h` that has such a successor.
pub open spec fn periodic(h: Seq<Seq<u16>>, period: int, pos: int) -> bool {
    forall|g: int| 0 <= g < h.len() - period ==> #[trigger] h[g][pos] == h[g + period][pos]
}

/// The smallest period in `p..=max` at which `pos` is periodic, or 0 if there
/// is none.
pub open spec fn first_period_from(h: Seq<Seq<u16>>, pos: int, p: int, max: int) -> int
    decreases max + 1 - p,
{
    if p > max {
        0
    } else if periodic(h, p, pos) {
        p
    } else {
        first_period_from(h, pos, p + 1, max)
    }
}

/// The smallest period in `1..=max` at which `pos` is periodic, or 0 if there
/// is none.
pub open spec fn first_period(h: Seq<Seq<u16>>, pos: int, max: int) -> int {
    first_period_from(h, pos, 1, max)
}

/// The longest period searched in a history of `len` generations.
pub open spec fn max_period(len: int) -> int {
    len / 3
}

/// Number of sampled cells in a lattice of `cells` cells.
pub open spec fn sample_count(cells: int) -> int {
    cells / SAMPLE_STRIDE as int
}

/// A sampled cell that never changes and is empty: it belongs to no bucket.
pub open spec fn empty_static(h: Seq<Seq<u16>>, pos: int) -> bool {
    first_period(h, pos, max_period(h.len() as int)) == 1 && h[0][pos] == 0
}

/// The bucket of a sampled cell: its smallest period (0 when it has none),
/// unless it is an empty static cell.
pub open spec fn sample_bucket(h: Seq<Seq<u16>>, pos: int) -> Option<int> {
    if empty_static(h, pos) {
        None
    } else {
        Some(first_period(h, pos, max_period(h.len() as int)))
    }
}

/// Number of the first `k` sampled cells that fall into bucket `b`.
pub open spec fn bucket_count(h: Seq<Seq<u16>>, b: int, k: int) -> nat
    decreases k,
{
    if k <= 0 {
        0
    } else {
        bucket_count(h, b, k - 1) + if sample_bucket(h, (k - 1) * SAMPLE_STRIDE as int) == Some(b) {
            1nat
        } else {
            0nat
        }
    }
}

/// Number of the first `k` sampled cells that are empty static cells.
pub open spec fn empty_static_count(h: Seq<Seq<u16>>, k: int) -> nat
    decreases k,
{
    if k <= 0 {
        0
    } else {
        empty_static_count(h, k - 1) + if empty_static(h, (k - 1) * SAMPLE_STRIDE as int) {
            1nat
        } else {
            0nat
        }
    }
}

/// Number of the first `k` sampled cells that are occupied in generation 0.
pub open spec fn occupied_count(h: Seq<Seq<u16>>, k: int) -> nat
    decreases k,
{
    if k <= 0 {
        0
    } else {
        occupied_count(h, k - 1) + if h[0][(k - 1) * SAMPLE_STRIDE as int] != 0 {
            1nat
        } else {
            0nat
        }
    }
}

/// The period histogram of a history whose generations have `cells` cells:
/// bucket `b` counts the sampled cells whose bucket is `b`.
pub open spec fn histogram_of(h: Seq<Seq<u16>>, cells: int) -> Seq<int> {
    Seq::new(
        (max_period(h.len() as int) + 1) as nat,
        |b: int| bucket_count(h, b, sample_count(cells)) as int,
    )
}

/// Sum of the first `m` elements of `s`.
pub open spec fn prefix_sum(s: Seq<int>, m: int) -> int
    decreases m,
{
    if m <= 0 {
        0
    } else {
        prefix_sum(s, m - 1) + s[m - 1]
    }
}

/// One generation of the lattice, captured for scoring.
pub struct Snapshot {
    side: usize,
    data: Vec<u16>,
}

impl View for Snapshot {
    type V = Seq<u16>;

    closed spec fn view(&self) -> Seq<u16> {
        self.data@
    }
}

/// `v` reduced into `0..side`, so that the lattice wraps around its edges.
pub open spec fn wrap(v: int, side: int) -> int {
    v % side
}

/// The cell at column `x` and row `y` of a lattice of side `side`, addressed
/// toroidally.
pub open spec fn cell_at(s: Seq<u16>, side: int, x: int, y: int) -> u16 {
    s[wrap(y, side) * side + wrap(x, side)]
}

/// Radius of a clip: a clip is the square of side `2 * CLIP_RADIUS + 1` around
/// its centre.
pub const CLIP_RADIUS: i32 = 20;

/// Side of a clip.
pub const CLIP_DIM: usize = 41;

fn wrap_coordinate(v: i32, side: usize) -> (r: usize)
    requires
        0 < side <= MAX_SIDE,
    ensures
        r == wrap(v as int, side as int),
        r < side,
{
    if v >= 0 {
        (v as usize) % side
    } else {
        let n: u64 = (-(v as i64)) as u64;
        let m: u64 = n % (side as u64);
        if m == 0 {
            proof {
                vstd::arithmetic::div_mod::lemma_fundamental_div_mod(n as int, side as int);
                let q = n as int / side as int;
                assert((-q) * side == -(q * side)) by (nonlinear_arith);
                vstd::arithmetic::div_mod::lemma_fundamental_div_mod_converse(
                    v as int,
                    side as int,
                    -q,
                    0,
                );
            }
            0
        } else {
            proof {
                vstd::arithmetic::div_mod::lemma_fundamental_div_mod(n as int, side as int);
                let q = n as int / side as int;
                assert((-q - 1) * side == -(q * side) - side) by (nonlinear_arith);
                vstd::arithmetic::div_mod::lemma_fundamental_div_mod_converse(
                    v as int,
                    side as int,
                    -q - 1,
                    side as int - m as int,
                );
            }
            side - (m as usize)
        }
    }
}

impl Snapshot {
    pub closed spec fn side(&self) -> int {
        self.side as int
    }

    pub closed spec fn wf(&self) -> bool {
        &&& 0 < self.side <= MAX_SIDE
        &&& self.data@.len() == self.side * self.side
    }

    /// Captures a lattice of side `side` given as one value per cell, row by row.
    pub fn of(side: usize, world: Vec<u16>) -> (r: Snapshot)
        requires
            0 < side <= MAX_SIDE,
            world@.len() == side * side,
        ensures
            r.wf(),
            r.side() == side,
            r@ == world@,
    {
        Snapshot { side, data: world }
    }

    /// The cell at column `x` and row `y`, with wraparound at the edges.
    pub fn pixel(&self, x: i32, y: i32) -> (r: u16)
        requires
            self.wf(),
        ensures
            r == cell_at(self@, self.side(), x as int, y as int),
    {
        let xs = wrap_coordinate(x, self.side);
        let ys = wrap_coordinate(y, self.side);
        proof {
            assert(ys * self.side + xs < self.side * self.side <= MAX_SIDE * MAX_SIDE)
                by (nonlinear_arith)
                requires
                    ys < self.side,
                    xs < self.side,
                    self.side <= MAX_SIDE,
            ;
        }
        self.data[ys * self.side + xs]
    }

    /// The square of cells of radius `CLIP_RADIUS` around (`cx`, `cy`), row by
    /// row, with wraparound at the edges.
    pub fn clip(&self, cx: i32, cy: i32) -> (r: Vec<u16>)
        requires
            self.wf(),
            i32::MIN + CLIP_RADIUS <= cx <= i32::MAX - CLIP_RADIUS,
            i32::MIN + CLIP_RADIUS <= cy <= i32::MAX - CLIP_RADIUS,
        ensures
            r@.len() == CLIP_DIM * CLIP_DIM,
            forall|dx: int, dy: int|
                0 <= dx < CLIP_DIM && 0 <= dy < CLIP_DIM ==> #[trigger] r@[dy * CLIP_DIM + dx]
                    == cell_at(self@, self.side(), cx - CLIP_RADIUS + dx, cy - CLIP_RADIUS + dy),
    {
        let mut result: Vec<u16> = Vec::new();
        let mut dy: i32 = 0;
        while dy < 41
            invariant
                self.wf(),
                0 <= dy <= 41,
                i32::MIN + CLIP_RADIUS <= cx <= i32::MAX - CLIP_RADIUS,
                i32::MIN + CLIP_RADIUS <= cy <= i32::MAX - CLIP_RADIUS,
                result@.len() == dy * 41,
                forall|i: int, j: int|
                    0 <= i < 41 && 0 <= j < dy ==> #[trigger] result@[j * 41 + i] == cell_at(
                        self@,
                        self.side(),
                        cx - CLIP_RADIUS + i,
                        cy - CLIP_RADIUS + j,
                    ),
            decreases 41 - dy,
        {
            let mut dx: i32 = 0;
            while dx < 41
                invariant
                    self.wf(),
                    0 <= dx <= 41,
                    0 <= dy < 41,
                    i32::MIN + CLIP_RADIUS <= cx <= i32::MAX - CLIP_RADIUS,
                    i32::MIN + CLIP_RADIUS <= cy <= i32::MAX - CLIP_RADIUS,
                    result@.len() == dy * 41 + dx,
                    forall|i: int, j: int|
                        0 <= i < 41 && 0 <= j < dy ==> #[trigger] result@[j * 41 + i] == cell_at(
                            self@,
                            self.side(),
                            cx - CLIP_RADIUS + i,
                            cy - CLIP_RADIUS + j,
                        ),
                    forall|i: int|
                        0 <= i < dx ==> #[trigger] result@[dy * 41 + i] == cell_at(
                            self@,
                            self.side(),
                            cx - CLIP_RADIUS + i,
                            cy - CLIP_RADIUS + dy,
                        ),
                decreases 41 - dx,
            {
                let v = self.pixel(cx - CLIP_RADIUS + dx, cy - CLIP_RADIUS + dy);
                result.push(v);
                dx = dx + 1;
            }
            dy = dy + 1;
        }
        result
    }
}

proof fn lemma_first_period_from_range(h: Seq<Seq<u16>>, pos: int, p: int, max: int)
    requires
        1 <= p,
    ensures
        first_period_from(h, pos, p, max) == 0 || p <= first_period_from(h, pos, p, max) <= max,
    decreases max + 1 - p,
{
    if p <= max && !periodic(h, p, pos) {
        lemma_first_period_from_range(h, pos, p + 1, max);
    }
}

proof fn lemma_first_period_range(h: Seq<Seq<u16>>, pos: int, max: int)
    requires
        max >= 0,
    ensures
        0 <= first_period(h, pos, max) <= max,
{
    lemma_first_period_from_range(h, pos, 1, max);
}

proof fn lemma_first_period_from_is_smallest(h: Seq<Seq<u16>>, pos: int, p: int, max: int)
    requires
        1 <= p,
    ensures
        ({
            let f = first_period_from(h, pos, p, max);
            &&& f > 0 ==> periodic(h, f, pos) && forall|q: int|
                p <= q < f ==> !#[trigger] periodic(h, q, pos)
            &&& f == 0 ==> forall|q: int| p <= q <= max ==> !#[trigger] periodic(h, q, pos)
        }),
    decreases max + 1 - p,
{
    if p <= max && !periodic(h, p, pos) {
        lemma_first_period_from_is_smallest(h, pos, p + 1, max);
    }
}

/// The period found for a cell is the smallest one: the cell repeats with
/// it and with no shorter period, and when none is found it repeats with no
/// period up to `max`.
pub proof fn lemma_first_period_is_smallest(h: Seq<Seq<u16>>, pos: int, max: int)
    ensures
        ({
            let f = first_period(h, pos, max);
            &&& f > 0 ==> periodic(h, f, pos) && forall|q: int|
                1 <= q < f ==> !#[trigger] periodic(h, q, pos)
            &&& f == 0 ==> forall|q: int| 1 <= q <= max ==> !#[trigger] periodic(h, q, pos)
        }),
{
    lemma_first_period_from_is_smallest(h, pos, 1, max);
}

proof fn lemma_bucket_count_bound(h: Seq<Seq<u16>>, b: int, k: int)
    ensures
        bucket_count(h, b, k) <= if k < 0 { 0 } else { k },
    decreases k,
{
    if k > 0 {
        lemma_bucket_count_bound(h, b, k - 1);
    }
}

proof fn lemma_occupied_count_bound(h: Seq<Seq<u16>>, k: int)
    ensures
        occupied_count(h, k) <= if k < 0 { 0 } else { k },
    decreases k,
{
    if k > 0 {
        lemma_occupied_count_bound(h, k - 1);
    }
}

spec fn bucket_total(h: Seq<Seq<u16>>, m: int, k: int) -> int
    decreases m,
{
    if m <= 0 {
        0
    } else {
        bucket_total(h, m - 1, k) + bucket_count(h, m - 1, k)
    }
}

proof fn lemma_bucket_total_step(h: Seq<Seq<u16>>, m: int, k: int)
    requires
        k >= 0,
    ensures
        bucket_total(h, m, k + 1) == bucket_total(h, m, k) + match sample_bucket(
            h,
            k * SAMPLE_STRIDE as int,
        ) {
            Some(b) => if 0 <= b < m {
                1int
            } else {
                0int
            },
            None => 0int,
        },
    decreases m,
{
    if m > 0 {
        lemma_bucket_total_step(h, m - 1, k);
    }
}

proof fn lemma_bucket_total_empty(h: Seq<Seq<u16>>, m: int)
    ensures
        bucket_total(h, m, 0) == 0,
    decreases m,
{
    if m > 0 {
        lemma_bucket_total_empty(h, m - 1);
    }
}

proof fn lemma_samples_accounted(h: Seq<Seq<u16>>, k: int)
    requires
        k >= 0,
    ensures
        bucket_total(h, max_period(h.len() as int) + 1, k) + empty_static_count(h, k) == k,
    decreases k,
{
    lemma_bucket_total_empty(h, max_period(h.len() as int) + 1);
    if k > 0 {
        let max = max_period(h.len() as int);
        lemma_samples_accounted(h, k - 1);
        lemma_bucket_total_step(h, max + 1, k - 1);
        let pos = (k - 1) * SAMPLE_STRIDE as int;
        lemma_first_period_range(h, pos, max);
        assert(empty_static_count(h, k) == empty_static_count(h, k - 1) + if empty_static(h, pos) {
            1nat
        } else {
            0nat
        });
        if !empty_static(h, pos) {
            assert(sample_bucket(h, pos) == Some(first_period(h, pos, max)));
            assert(0 <= first_period(h, pos, max) < max + 1);
        }
    }
}

proof fn lemma_prefix_sum_of_histogram(h: Seq<Seq<u16>>, cells: int, m: int)
    requires
        0 <= m <= max_period(h.len() as int) + 1,
    ensures
        prefix_sum(histogram_of(h, cells), m) == bucket_total(h, m, sample_count(cells)),
    decreases m,
{
    if m > 0 {
        lemma_prefix_sum_of_histogram(h, cells, m - 1);
    }
}

/// Every sampled cell is counted in exactly one bucket of the histogram,
/// unless it is an empty static cell, which is counted in none.
pub proof fn lemma_histogram_accounts_for_every_sample(h: Seq<Seq<u16>>, cells: int)
    requires
        cells >= 0,
    ensures
        prefix_sum(histogram_of(h, cells), histogram_of(h, cells).len() as int)
            + empty_static_count(h, sample_count(cells)) == sample_count(cells),
{
    let max = max_period(h.len() as int);
    lemma_prefix_sum_of_histogram(h, cells, max + 1);
    lemma_samples_accounted(h, sample_count(cells));
}

proof fn lemma_no_empty_static(h: Seq<Seq<u16>>, k: int)
    requires
        forall|i: int| 0 <= i < k ==> !empty_static(h, #[trigger] (i * SAMPLE_STRIDE as int)),
    ensures
        empty_static_count(h, k) == 0,
    decreases k,
{
    if k > 0 {
        assert(!empty_static(h, (k - 1) * SAMPLE_STRIDE as int));
        lemma_no_empty_static(h, k - 1);
    }
}

/// Undoing the normalisation of the densities (multiplying each by the
/// number of cells occupied in generation 0) gives back the bucket counts,
/// and these add up to the number of sampled cells whenever no sampled cell
/// stays empty throughout.
pub proof fn lemma_histogram_normalization(h: Seq<Seq<u16>>, cells: int)
    requires
        cells >= 0,
        forall|i: int|
            0 <= i < sample_count(cells) ==> !empty_static(h, #[trigger] (i * SAMPLE_STRIDE as int)),
    ensures
        prefix_sum(histogram_of(h, cells), histogram_of(h, cells).len() as int) == sample_count(
            cells,
        ),
{
    lemma_histogram_accounts_for_every_sample(h, cells);
    lemma_no_empty_static(h, sample_count(cells));
}

/// The occupancy histogram of a scoring pass. Bucket `p` of `counts` holds the
/// number of sampled cells whose smallest period is `p` (bucket 0: no period
/// found); the density of bucket `p` is `counts[p] / occupied`, that is the
/// share of sampled cells relative to the share of sampled cells occupied in
/// generation 0.
#[derive(Debug)]
pub struct PeriodHistogram {
    pub counts: Vec<usize>,
    pub positions: usize,
    pub occupied: usize,
}

/// Largest number of buckets a histogram may have for its score to be
/// computed exactly.
pub const SCORE_MAX_BUCKETS: usize = 0x100_0000;

/// Largest bucket count for which a score is computed exactly.
pub const SCORE_MAX_COUNT: usize = 0xffff_ffff;

/// Bucket `i` of `c`, and 0 for a bucket that the histogram does not have.
pub open spec fn bucket_or_zero(c: Seq<usize>, i: int) -> int {
    if 0 <= i < c.len() {
        c[i] as int
    } else {
        0
    }
}

/// Sum of the buckets `2..m` of `c`: the cells that oscillate.
pub open spec fn oscillator_sum(c: Seq<usize>, m: int) -> int
    decreases m,
{
    if m <= 2 {
        0
    } else {
        oscillator_sum(c, m - 1) + bucket_or_zero(c, m - 1)
    }
}

/// Sum over the buckets `2..m` of `c` of the bucket weighted by the square
/// of its period.
pub open spec fn weighted_sum(c: Seq<usize>, m: int) -> int
    decreases m,
{
    if m <= 2 {
        0
    } else {
        weighted_sum(c, m - 1) + (m - 1) * (m - 1) * bucket_or_zero(c, m - 1)
    }
}

/// The score of histogram `c` with `occ` occupied sampled cells, before the
/// static-dominance demotion, multiplied by `occ`. With densities
/// `d[p] = c[p] / occ` the score is `sum of p * p * d[p] over p >= 2`, minus
/// `20 * d[0]` when the oscillator density is below 1, plus 1000.
pub open spec fn score_base(c: Seq<usize>, occ: int) -> int {
    let osc = oscillator_sum(c, c.len() as int);
    weighted_sum(c, c.len() as int) - (if osc < occ {
        20 * bucket_or_zero(c, 0)
    } else {
        0
    }) + 1000 * occ
}

/// Static cells outweigh oscillating ones more than five times over.
pub open spec fn static_dominated(c: Seq<usize>) -> bool {
    bucket_or_zero(c, 1) > 5 * oscillator_sum(c, c.len() as int)
}

/// The denominator of the score: `occ`, times 1000 for a statically
/// dominated histogram.
pub open spec fn score_denominator(c: Seq<usize>, occ: int) -> int {
    if static_dominated(c) {
        1000 * occ
    } else {
        occ
    }
}

/// The counts of `c` are small enough for the score to be computed exactly.
pub open spec fn score_in_range(c: Seq<usize>) -> bool {
    &&& c.len() <= SCORE_MAX_BUCKETS
    &&& forall|i: int| 0 <= i < c.len() ==> #[trigger] c[i] <= SCORE_MAX_COUNT
}

/// An interestingness score, the exact fraction `numerator / denominator`
/// (the denominator is positive).
#[derive(Clone, Copy, Debug, PartialEq, Eq, Structural)]
pub struct Score {
    pub numerator: i128,
    pub denominator: i128,
}

proof fn lemma_weighted_term_bound(p: int, c: int)
    requires
        0 <= p < SCORE_MAX_BUCKETS,
        0 <= c <= SCORE_MAX_COUNT,
    ensures
        0 <= p * p * c <= 0x1_0000_0000_0000_0000_0000,
{
    assert(0 <= p * p * c <= SCORE_MAX_BUCKETS * SCORE_MAX_BUCKETS * SCORE_MAX_COUNT)
        by (nonlinear_arith)
        requires
            0 <= p < SCORE_MAX_BUCKETS,
            0 <= c <= SCORE_MAX_COUNT,
    ;
}

proof fn lemma_sums_bound(c: Seq<usize>, m: int)
    requires
        score_in_range(c),
        m <= c.len(),
    ensures
        0 <= weighted_sum(c, m) <= (if m < 0 { 0 } else { m }) * 0x1_0000_0000_0000_0000_0000,
        0 <= oscillator_sum(c, m) <= (if m < 0 { 0 } else { m }) * SCORE_MAX_COUNT,
    decreases m,
{
    if m > 2 {
        lemma_sums_bound(c, m - 1);
        lemma_weighted_term_bound(m - 1, bucket_or_zero(c, m - 1));
    }
}

proof fn lemma_sums_after_raise(c: Seq<usize>, c2: Seq<usize>, m: int)
    requires
        c.len() >= 3,
        c2.len() == c.len(),
        forall|i: int| 0 <= i < c.len() && i != 2 ==> c2[i] == c[i],
        m >= 3,
    ensures
        oscillator_sum(c2, m) == oscillator_sum(c, m) + (c2[2] - c[2]),
        weighted_sum(c2, m) == weighted_sum(c, m) + 4 * (c2[2] - c[2]),
    decreases m,
{
    if m > 3 {
        lemma_sums_after_raise(c, c2, m - 1);
        assert(bucket_or_zero(c2, m - 1) == bucket_or_zero(c, m - 1));
    } else {
        assert(m == 3);
        assert(weighted_sum(c, 2) == 0 && weighted_sum(c2, 2) == 0);
        assert(oscillator_sum(c, 2) == 0 && oscillator_sum(c2, 2) == 0);
        assert(weighted_sum(c, 3) == 4 * c[2]);
        assert(weighted_sum(c2, 3) == 4 * c2[2]);
    }
}

/// Raising the count of period-2 cells, all else equal, strictly raises the
/// score: the quadratic weight is positive. The one exception is a raise that
/// lifts the static-dominance demotion off a score whose new base is at most
/// a thousandth of the old one.
pub proof fn lemma_score_monotone_in_period_two(c: Seq<usize>, c2: Seq<usize>, occ: int)
    requires
        occ > 0,
        c.len() >= 3,
        c2.len() == c.len(),
        c2[2] > c[2],
        forall|i: int| 0 <= i < c.len() && i != 2 ==> c2[i] == c[i],
        !(static_dominated(c) && !static_dominated(c2) && 1000 * score_base(c2, occ) <= score_base(
            c,
            occ,
        )),
    ensures
        score_base(c2, occ) * score_denominator(c, occ) > score_base(c, occ) * score_denominator(
            c2,
            occ,
        ),
{
    let m = c.len() as int;
    lemma_sums_after_raise(c, c2, m);
    let b = score_base(c, occ);
    let b2 = score_base(c2, occ);
    assert(b2 > b);
    if static_dominated(c2) {
        assert(static_dominated(c));
        assert(b2 * (1000 * occ) > b * (1000 * occ)) by (nonlinear_arith)
            requires
                b2 > b,
                occ > 0,
        ;
    } else if static_dominated(c) {
        assert(b2 * (1000 * occ) > b * occ) by (nonlinear_arith)
            requires
                1000 * b2 > b,
                occ > 0,
        ;
    } else {
        assert(b2 * occ > b * occ) by (nonlinear_arith)
            requires
                b2 > b,
                occ > 0,
        ;
    }
}

/// Samples generations of the lattice and measures their periodicity.
pub struct Scorer {
    side: usize,
    snapshots: Vec<Snapshot>,
}

impl View for Scorer {
    type V = Seq<Seq<u16>>;

    closed spec fn view(&self) -> Seq<Seq<u16>> {
        self.snapshots@.map_values(|s: Snapshot| s@)
    }
}

impl Scorer {
    /// Side of the lattice whose generations this scorer holds.
    pub closed spec fn side(&self) -> int {
        self.side as int
    }

    pub closed spec fn wf(&self) -> bool {
        &&& 0 < self.side <= MAX_SIDE
        &&& forall|g: int|
            0 <= g < self.snapshots@.len() ==> {
                &&& (#[trigger] self.snapshots@[g]).wf()
                &&& self.snapshots@[g].side() == self.side
            }
    }

    /// Number of cells of one generation.
    pub open spec fn cells(&self) -> int {
        self.side() * self.side()
    }

    proof fn lemma_lengths(&self)
        requires
            self.wf(),
        ensures
            forall|g: int| 0 <= g < self@.len() ==> (#[trigger] self@[g]).len() == self.cells(),
            self.cells() <= MAX_SIDE * MAX_SIDE,
            self@.len() == self.snapshots@.len(),
    {
        assert(self.side * self.side <= MAX_SIDE * MAX_SIDE) by (nonlinear_arith)
            requires
                self.side <= MAX_SIDE,
        ;
    }

    /// A scorer for the lattice of side `WORLD_SIZE`, with no generation yet.
    pub fn new() -> (r: Scorer)
        ensures
            r.wf(),
            r@ == Seq::<Seq<u16>>::empty(),
            r.side() == WORLD_SIZE,
    {
        let r = Scorer { side: WORLD_SIZE as usize, snapshots: Vec::new() };
        assert(r@ =~= Seq::<Seq<u16>>::empty());
        r
    }

    /// A scorer for a lattice of side `side`, with no generation yet.
    pub fn with_side(side: usize) -> (r: Scorer)
        requires
            0 < side <= MAX_SIDE,
        ensures
            r.wf(),
            r@ == Seq::<Seq<u16>>::empty(),
            r.side() == side,
    {
        let r = Scorer { side, snapshots: Vec::new() };
        assert(r@ =~= Seq::<Seq<u16>>::empty());
        r
    }

    /// Side of the lattice whose generations this scorer holds.
    pub fn lattice_side(&self) -> (r: usize)
        ensures
            r == self.side(),
    {
        self.side
    }

    pub(crate) proof fn lemma_side_bound(&self)
        requires
            self.wf(),
        ensures
            0 < self.side() <= MAX_SIDE,
            self.cells() == self.side() * self.side(),
    {
    }

    /// The clip of radius `CLIP_RADIUS` around (`cx`, `cy`) in generation `g`.
    pub fn clip(&self, g: usize, cx: i32, cy: i32) -> (r: Vec<u16>)
        requires
            self.wf(),
            g < self@.len(),
            i32::MIN + CLIP_RADIUS <= cx <= i32::MAX - CLIP_RADIUS,
            i32::MIN + CLIP_RADIUS <= cy <= i32::MAX - CLIP_RADIUS,
        ensures
            r@.len() == CLIP_DIM * CLIP_DIM,
            forall|dx: int, dy: int|
                0 <= dx < CLIP_DIM && 0 <= dy < CLIP_DIM ==> #[trigger] r@[dy * CLIP_DIM + dx]
                    == cell_at(self@[g as int], self.side(), cx - CLIP_RADIUS + dx, cy - CLIP_RADIUS + dy),
    {
        proof {
            self.lemma_lengths();
            assert(self@[g as int] == self.snapshots@[g as int]@);
        }
        self.snapshots[g].clip(cx, cy)
    }

    /// Number of generations captured so far.
    pub fn generations(&self) -> (r: usize)
        requires
            self.wf(),
        ensures
            r == self@.len(),
    {
        proof {
            self.lemma_lengths();
        }
        self.snapshots.len()
    }

    /// Captures the next generation, given as one value per cell, row by row.
    pub fn add_snapshot(&mut self, world: Vec<u16>)
        requires
            old(self).wf(),
            world@.len() == old(self).cells(),
        ensures
            final(self).wf(),
            final(self).side() == old(self).side(),
            final(self)@ == old(self)@.push(world@),
    {
        let snapshot = Snapshot::of(self.side, world);
        self.snapshots.push(snapshot);
        assert(self@ =~= old(self)@.push(world@));
    }

    /// Whether `position` repeats with period `period` over the captured
    /// generations.
    pub fn check_for_pattern(&self, period: usize, position: usize) -> (r: bool)
        requires
            self.wf(),
            period <= self@.len(),
            position < self.cells(),
        ensures
            r == periodic(self@, period as int, position as int),
    {
        proof {
            self.lemma_lengths();
        }
        let n = self.snapshots.len();
        let mut index: usize = 0;
        while index < n - period
            invariant
                self.wf(),
                n == self@.len(),
                period <= n,
                position < self.cells(),
                forall|g: int| 0 <= g < self@.len() ==> (#[trigger] self@[g]).len() == self.cells(),
                index <= n - period,
                forall|g: int|
                    0 <= g < index ==> #[trigger] self@[g][position as int] == self@[g
                        + period][position as int],
            decreases n - period - index,
        {
            assert(self@[index as int] == self.snapshots@[index as int]@);
            assert(self@[index + period] == self.snapshots@[index + period]@);
            if self.snapshots[index].data[position] != self.snapshots[index + period].data[position] {
                return false;
            }
            index = index + 1;
        }
        true
    }

    /// The smallest period in `1..=max` at which `position` repeats, or 0 if
    /// there is none.
    pub fn first_period(&self, position: usize, max: usize) -> (r: usize)
        requires
            self.wf(),
            max <= self@.len(),
            position < self.cells(),
        ensures
            r == first_period(self@, position as int, max as int),
    {
        let mut period: usize = 0;
        while period < max
            invariant
                self.wf(),
                period <= max,
                max <= self@.len(),
                position < self.cells(),
                first_period(self@, position as int, max as int) == first_period_from(
                    self@,
                    position as int,
                    period + 1,
                    max as int,
                ),
            decreases max - period,
        {
            let next = period + 1;
            if self.check_for_pattern(next, position) {
                return next;
            }
            period = next;
        }
        0
    }

    /// The score of a histogram: `None` when no sampled cell is occupied in
    /// generation 0 (the densities are then undefined), else the fraction
    /// `score_base / score_denominator`.
    pub fn compute_score(&self, histogram: &PeriodHistogram) -> (r: Option<Score>)
        requires
            score_in_range(histogram.counts@),
        ensures
            r is None <==> histogram.occupied == 0,
            r matches Some(score) ==> {
                &&& score.numerator == score_base(histogram.counts@, histogram.occupied as int)
                &&& score.denominator == score_denominator(
                    histogram.counts@,
                    histogram.occupied as int,
                )
                &&& score.denominator > 0
            },
    {
        if histogram.occupied == 0 {
            return None;
        }
        let c = &histogram.counts;
        let n = c.len();
        let mut weighted: i128 = 0;
        let mut oscillators: i128 = 0;
        let mut p: usize = 2;
        while p < n
            invariant
                score_in_range(c@),
                n == c@.len(),
                2 <= p,
                p == 2 || p <= n,
                weighted == weighted_sum(c@, p as int),
                oscillators == oscillator_sum(c@, p as int),
            decreases n - p,
        {
            proof {
                lemma_sums_bound(c@, p as int);
                lemma_weighted_term_bound(p as int, c@[p as int] as int);
            }
            let pp = p as i128;
            proof {
                assert(pp * pp <= SCORE_MAX_BUCKETS * SCORE_MAX_BUCKETS) by (nonlinear_arith)
                    requires
                        0 <= pp < SCORE_MAX_BUCKETS,
                ;
            }
            let sq: i128 = pp * pp;
            let term: i128 = sq * (c[p] as i128);
            assert(term == p * p * bucket_or_zero(c@, p as int));
            assert((p + 1 - 1) * (p + 1 - 1) == p * p);
            assert(weighted_sum(c@, p + 1) == weighted_sum(c@, p as int) + p * p * bucket_or_zero(
                c@,
                p as int,
            ));
            assert(oscillator_sum(c@, p + 1) == oscillator_sum(c@, p as int) + bucket_or_zero(
                c@,
                p as int,
            ));
            weighted = weighted + term;
            oscillators = oscillators + c[p] as i128;
            p = p + 1;
        }
        proof {
            lemma_sums_bound(c@, n as int);
            if n > 2 {
                assert(p == n);
            }
        }
        let occ = histogram.occupied as i128;
        let mut numerator: i128 = weighted;
        if oscillators < occ {
            let c0: i128 = if n > 0 {
                c[0] as i128
            } else {
                0
            };
            numerator = numerator - 20 * c0;
        }
        numerator = numerator + 1000 * occ;
        let c1: i128 = if n > 1 {
            c[1] as i128
        } else {
            0
        };
        let denominator: i128 = if c1 > 5 * oscillators {
            1000 * occ
        } else {
            occ
        };
        Some(Score { numerator, denominator })
    }

    /// The value of `position` in generation `g`.
    pub fn cell(&self, g: usize, position: usize) -> (r: u16)
        requires
            self.wf(),
            g < self@.len(),
            position < self.cells(),
        ensures
            r == self@[g as int][position as int],
    {
        proof {
            self.lemma_lengths();
            assert(self@[g as int] == self.snapshots@[g as int]@);
        }
        self.snapshots[g].data[position]
    }

    /// The period histogram of the captured generations: for each sampled
    /// cell (every `SAMPLE_STRIDE`th cell) its smallest period in
    /// `1..=generations / 3`, or 0 when it has none; a cell that never changes
    /// counts only when it is occupied.
    pub fn find_pattern_densities(&self) -> (r: PeriodHistogram)
        requires
            self.wf(),
            self@.len() >= 1,
        ensures
            r.counts@.len() == max_period(self@.len() as int) + 1,
            forall|b: int|
                0 <= b < r.counts@.len() ==> r.counts@[b] as int == #[trigger] histogram_of(
                    self@,
                    self.cells(),
                )[b],
            r.positions == sample_count(self.cells()),
            r.occupied == occupied_count(self@, r.positions as int),
    {
        proof {
            self.lemma_lengths();
        }
        let ghost h = self@;
        let max = self.snapshots.len() / 3;
        let mut counts: Vec<usize> = Vec::new();
        while counts.len() <= max
            invariant
                counts@.len() <= max + 1,
                forall|b: int| 0 <= b < counts@.len() ==> counts@[b] == 0,
            decreases max + 1 - counts@.len(),
        {
            counts.push(0);
        }
        let cells = self.side * self.side;
        let positions = cells / SAMPLE_STRIDE;
        let mut k: usize = 0;
        while k < positions
            invariant
                self.wf(),
                h == self@,
                h.len() >= 1,
                max == max_period(h.len() as int),
                max <= h.len(),
                cells == self.cells(),
                positions == sample_count(cells as int),
                forall|g: int| 0 <= g < h.len() ==> (#[trigger] h[g]).len() == cells,
                k <= positions,
                counts@.len() == max + 1,
                forall|b: int| 0 <= b <= max ==> #[trigger] counts@[b] == bucket_count(h, b, k as int),
            decreases positions - k,
        {
            let pos = k * SAMPLE_STRIDE;
            let p = self.first_period(pos, max);
            proof {
                lemma_first_period_range(h, pos as int, max as int);
                assert forall|b: int| 0 <= b <= max implies bucket_count(h, b, k as int) <= k by {
                    lemma_bucket_count_bound(h, b, k as int);
                }
            }
            if p != 1 || self.cell(0, pos) != 0 {
                counts.set(p, counts[p] + 1);
            }
            proof {
                assert forall|b: int| 0 <= b <= max implies #[trigger] counts@[b] == bucket_count(
                    h,
                    b,
                    k + 1,
                ) by {
                    assert(bucket_count(h, b, k + 1) == bucket_count(h, b, k as int) + if sample_bucket(
                        h,
                        k * SAMPLE_STRIDE as int,
                    ) == Some(b) {
                        1nat
                    } else {
                        0nat
                    });
                }
            }
            k = k + 1;
        }
        let mut occupied: usize = 0;
        let mut k: usize = 0;
        while k < positions
            invariant
                self.wf(),
                h == self@,
                h.len() >= 1,
                cells == self.cells(),
                positions == sample_count(cells as int),
                forall|g: int| 0 <= g < h.len() ==> (#[trigger] h[g]).len() == cells,
                k <= positions,
                occupied == occupied_count(h, k as int),
            decreases positions - k,
        {
            proof {
                lemma_occupied_count_bound(h, k as int);
            }
            if self.cell(0, k * SAMPLE_STRIDE) != 0 {
                occupied = occupied + 1;
            }
            k = k + 1;
        }
        PeriodHistogram { counts, positions, occupied }
    }
}

} // verus!
