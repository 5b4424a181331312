use vstd::prelude::*;

use crate::periodicity::{
    cell_at, periodic, PeriodHistogram, Scorer, CLIP_DIM, CLIP_RADIUS, MAX_SIDE,
};

verus! {

/// Distance between two gridlines of an atlas frame: a clip and one line.
pub const GRID_PITCH: usize = 42;

/// Side of an atlas frame: four clips and five gridlines.
pub const FRAME_WIDTH: usize = 169;

/// Number of display slots of an atlas frame.
pub const SLOTS: usize = 16;

/// Slots per row of an atlas frame.
pub const SLOTS_PER_ROW: usize = 4;

/// Palette index of background cells.
pub const BACKGROUND: u8 = 0;

/// Palette index of gridlines: the background's.
pub const GRIDLINE: u8 = 0;

/// Whether column `px` or row `py` of a frame lies on a gridline.
pub open spec fn on_gridline(px: int, py: int) -> bool {
    px % GRID_PITCH as int == 0 || py % GRID_PITCH as int == 0
}

/// The palette index that shows a cell value: its low byte.
pub open spec fn cell_index(v: u16) -> u8 {
    (v % 256) as u8
}

/// Index of pixel (`px`, `py`) in the row-major data of a frame.
pub open spec fn frame_index(px: int, py: int) -> int {
    py * FRAME_WIDTH as int + px
}

/// A square raster of palette indices, `FRAME_WIDTH` pixels on a side.
pub struct DisplayFrame {
    width: usize,
    data: Vec<u8>,
}

impl View for DisplayFrame {
    type V = Seq<u8>;

    closed spec fn view(&self) -> Seq<u8> {
        self.data@
    }
}

impl DisplayFrame {
    pub closed spec fn wf(&self) -> bool {
        &&& self.width == FRAME_WIDTH
        &&& self.data@.len() == FRAME_WIDTH * FRAME_WIDTH
    }

    /// An empty frame with its 4 by 4 grid of gridlines.
    pub fn new() -> (r: DisplayFrame)
        ensures
            r.wf(),
            r@.len() == FRAME_WIDTH * FRAME_WIDTH,
            forall|px: int, py: int|
                0 <= px < FRAME_WIDTH && 0 <= py < FRAME_WIDTH ==> #[trigger] r@[frame_index(px, py)]
                    == if on_gridline(px, py) {
                    GRIDLINE
                } else {
                    BACKGROUND
                },
    {
        let width = FRAME_WIDTH;
        let mut data: Vec<u8> = Vec::new();
        let mut py: usize = 0;
        while py < width
            invariant
                width == FRAME_WIDTH,
                py <= width,
                data@.len() == py * FRAME_WIDTH,
                forall|i: int, j: int|
                    0 <= i < FRAME_WIDTH && 0 <= j < py ==> #[trigger] data@[frame_index(i, j)] == if on_gridline(i, j) {
                        GRIDLINE
                    } else {
                        BACKGROUND
                    },
            decreases width - py,
        {
            let mut px: usize = 0;
            while px < width
                invariant
                    width == FRAME_WIDTH,
                    py < width,
                    px <= width,
                    data@.len() == py * FRAME_WIDTH + px,
                    forall|i: int, j: int|
                        0 <= i < FRAME_WIDTH && 0 <= j < py ==> #[trigger] data@[frame_index(i, j)] == if on_gridline(i, j) {
                            GRIDLINE
                        } else {
                            BACKGROUND
                        },
                    forall|i: int|
                        0 <= i < px ==> #[trigger] data@[frame_index(i, py as int)] == if on_gridline(i, py as int) {
                            GRIDLINE
                        } else {
                            BACKGROUND
                        },
                decreases width - px,
            {
                if px % GRID_PITCH == 0 || py % GRID_PITCH == 0 {
                    data.push(GRIDLINE);
                } else {
                    data.push(BACKGROUND);
                }
                px = px + 1;
            }
            py = py + 1;
        }
        DisplayFrame { width, data }
    }

    /// Sets pixel (`x`, `y`) to palette index `value`.
    pub fn set_pixel(&mut self, x: usize, y: usize, value: u8)
        requires
            old(self).wf(),
            x < FRAME_WIDTH,
            y < FRAME_WIDTH,
        ensures
            final(self).wf(),
            final(self)@.len() == FRAME_WIDTH * FRAME_WIDTH,
            final(self)@ == old(self)@.update(frame_index(x as int, y as int), value),
    {
        self.data.set(y * self.width + x, value);
    }

    /// Copies a clip, given row by row, into the square whose top left pixel
    /// is (`x`, `y`); each cell value shows as its low byte.
    pub fn put_clip(&mut self, x: usize, y: usize, clip: &[u16])
        requires
            old(self).wf(),
            x + CLIP_DIM <= FRAME_WIDTH,
            y + CLIP_DIM <= FRAME_WIDTH,
            clip@.len() == CLIP_DIM * CLIP_DIM,
        ensures
            final(self).wf(),
            final(self)@.len() == FRAME_WIDTH * FRAME_WIDTH,
            forall|px: int, py: int|
                0 <= px < FRAME_WIDTH && 0 <= py < FRAME_WIDTH ==> #[trigger] final(self)@[frame_index(px, py)]
                    == if x <= px < x + CLIP_DIM && y <= py < y + CLIP_DIM {
                    cell_index(clip@[(py - y) * CLIP_DIM as int + (px - x)])
                } else {
                    old(self)@[frame_index(px, py)]
                },
    {
        let ghost before = self@;
        let mut dx: usize = 0;
        while dx < CLIP_DIM
            invariant
                self.wf(),
                before.len() == FRAME_WIDTH * FRAME_WIDTH,
                x + CLIP_DIM <= FRAME_WIDTH,
                y + CLIP_DIM <= FRAME_WIDTH,
                clip@.len() == CLIP_DIM * CLIP_DIM,
                dx <= CLIP_DIM,
                forall|px: int, py: int|
                    0 <= px < FRAME_WIDTH && 0 <= py < FRAME_WIDTH ==> #[trigger] self@[frame_index(px, py)]
                        == if x <= px < x + dx && y <= py < y + CLIP_DIM {
                        cell_index(clip@[(py - y) * CLIP_DIM as int + (px - x)])
                    } else {
                        before[frame_index(px, py)]
                    },
            decreases CLIP_DIM - dx,
        {
            let mut dy: usize = 0;
            while dy < CLIP_DIM
                invariant
                    self.wf(),
                    before.len() == FRAME_WIDTH * FRAME_WIDTH,
                    x + CLIP_DIM <= FRAME_WIDTH,
                    y + CLIP_DIM <= FRAME_WIDTH,
                    clip@.len() == CLIP_DIM * CLIP_DIM,
                    dx < CLIP_DIM,
                    dy <= CLIP_DIM,
                    forall|px: int, py: int|
                        0 <= px < FRAME_WIDTH && 0 <= py < FRAME_WIDTH ==> #[trigger] self@[frame_index(px, py)]
                            == if (x <= px < x + dx && y <= py < y + CLIP_DIM) || (px == x + dx && y
                            <= py < y + dy) {
                            cell_index(clip@[(py - y) * CLIP_DIM as int + (px - x)])
                        } else {
                            before[frame_index(px, py)]
                        },
                decreases CLIP_DIM - dy,
            {
                let v = clip[dy * CLIP_DIM + dx];
                self.set_pixel(x + dx, y + dy, (v % 256) as u8);
                dy = dy + 1;
            }
            dx = dx + 1;
        }
    }

    /// The palette indices of the frame, row by row.
    pub fn into_pixels(self) -> (r: Vec<u8>)
        ensures
            r@ == self@,
    {
        self.data
    }
}

/// Period `p` is shown in the atlas: its density `c[p] / occ` exceeds 1/100.
pub open spec fn in_pool(c: Seq<usize>, occ: int, p: int) -> bool {
    0 <= p < c.len() && 100 * c[p] > occ
}

/// Period `a` comes before period `b` in the pool: lower density first, and
/// the shorter period first among equal densities.
pub open spec fn pool_before(c: Seq<usize>, a: int, b: int) -> bool {
    c[a] < c[b] || (c[a] == c[b] && a < b)
}

/// The periods of a histogram whose density exceeds 1/100, in ascending order
/// of density (of period among equal densities).
pub fn period_pool(histogram: &PeriodHistogram) -> (r: Vec<usize>)
    ensures
        forall|i: int, j: int|
            0 <= i < j < r@.len() ==> pool_before(
                histogram.counts@,
                #[trigger] r@[i] as int,
                #[trigger] r@[j] as int,
            ),
        forall|p: usize| #[trigger]
            r@.contains(p) <==> in_pool(histogram.counts@, histogram.occupied as int, p as int),
{
    let c = &histogram.counts;
    let occ = histogram.occupied;
    let mut pool: Vec<usize> = Vec::new();
    let mut p: usize = 0;
    while p < c.len()
        invariant
            p <= c@.len(),
            forall|i: int| 0 <= i < pool@.len() ==> #[trigger] pool@[i] < p,
            forall|i: int, j: int|
                0 <= i < j < pool@.len() ==> pool_before(c@, #[trigger] pool@[i] as int, #[trigger] pool@[j] as int),
            forall|q: usize| #[trigger]
                pool@.contains(q) <==> (q < p && in_pool(c@, occ as int, q as int)),
        decreases c@.len() - p,
    {
        if (c[p] as u128) * 100 > occ as u128 {
            let mut idx: usize = 0;
            while idx < pool.len() && c[pool[idx]] <= c[p]
                invariant
                    p < c@.len(),
                    idx <= pool@.len(),
                    forall|i: int| 0 <= i < pool@.len() ==> #[trigger] pool@[i] < p,
                    forall|i: int| 0 <= i < idx ==> c@[#[trigger] pool@[i] as int] <= c@[p as int],
                decreases pool@.len() - idx,
            {
                idx = idx + 1;
            }
            let ghost old_pool = pool@;
            proof {
                assert forall|i: int| idx <= i < old_pool.len() implies c@[#[trigger] old_pool[i] as int]
                    > c@[p as int] by {
                    if i > idx {
                        assert(pool_before(c@, old_pool[idx as int] as int, old_pool[i] as int));
                    }
                }
            }
            pool.insert(idx, p);
            proof {
                assert forall|i: int| 0 <= i < pool@.len() implies #[trigger] pool@[i] < p + 1 by {
                    if i < idx {
                        assert(pool@[i] == old_pool[i]);
                    } else if i > idx {
                        assert(pool@[i] == old_pool[i - 1]);
                    }
                }
                assert forall|i: int, j: int| 0 <= i < j < pool@.len() implies pool_before(
                    c@,
                    #[trigger] pool@[i] as int,
                    #[trigger] pool@[j] as int,
                ) by {
                    if j < idx {
                        assert(pool@[i] == old_pool[i] && pool@[j] == old_pool[j]);
                    } else if j == idx {
                        assert(pool@[i] == old_pool[i]);
                    } else if i < idx {
                        assert(pool@[i] == old_pool[i] && pool@[j] == old_pool[j - 1]);
                    } else if i == idx {
                        assert(pool@[j] == old_pool[j - 1]);
                    } else {
                        assert(pool@[i] == old_pool[i - 1] && pool@[j] == old_pool[j - 1]);
                    }
                }
                assert forall|q: usize| #[trigger]
                    pool@.contains(q) <==> (q < p + 1 && in_pool(c@, occ as int, q as int)) by {
                    if q == p {
                        assert(pool@[idx as int] == p);
                    }
                    if old_pool.contains(q) {
                        let i = choose|i: int| 0 <= i < old_pool.len() && old_pool[i] == q;
                        if i < idx {
                            assert(pool@[i] == q);
                        } else {
                            assert(pool@[i + 1] == q);
                        }
                    }
                    if pool@.contains(q) && q != p {
                        let i = choose|i: int| 0 <= i < pool@.len() && pool@[i] == q;
                        if i < idx {
                            assert(old_pool[i] == q);
                        } else {
                            assert(old_pool[i - 1] == q);
                        }
                    }
                }
            }
        } else {
            proof {
                assert forall|q: usize| #[trigger]
                    pool@.contains(q) <==> (q < p + 1 && in_pool(c@, occ as int, q as int)) by {
                    if q == p {
                        assert(!in_pool(c@, occ as int, q as int));
                    }
                }
            }
        }
        p = p + 1;
    }
    pool
}

/// Number of slots given to the pool entry at `idx` of a pool of `n`
/// periods: an even share of `SLOTS`, one more for each of the first
/// `SLOTS % n` entries (the least dense ones).
pub open spec fn slot_copies(n: int, idx: int) -> int {
    SLOTS as int / n + if idx < SLOTS as int % n {
        1int
    } else {
        0int
    }
}

/// The slots of the first `i` entries of `pool`, in pool order, each entry
/// repeated as many times as it has slots.
pub open spec fn allocation(pool: Seq<usize>, i: int) -> Seq<usize>
    decreases i,
{
    if i <= 0 {
        Seq::empty()
    } else {
        allocation(pool, i - 1) + Seq::new(
            slot_copies(pool.len() as int, i - 1) as nat,
            |_k: int| pool[i - 1],
        )
    }
}

proof fn lemma_allocation_len(pool: Seq<usize>, i: int)
    requires
        pool.len() > 0,
        0 <= i <= pool.len(),
    ensures
        allocation(pool, i).len() == i * (SLOTS as int / pool.len() as int) + if i
            < SLOTS as int % pool.len() as int {
            i
        } else {
            SLOTS as int % pool.len() as int
        },
    decreases i,
{
    vstd::arithmetic::div_mod::lemma_mod_pos_bound(SLOTS as int, pool.len() as int);
    if i > 0 {
        lemma_allocation_len(pool, i - 1);
        let n = pool.len() as int;
        let q = SLOTS as int / n;
        assert(q >= 0) by (nonlinear_arith)
            requires
                n > 0,
                q == SLOTS as int / n,
        ;
        assert(slot_copies(n, i - 1) >= 0);
        assert(allocation(pool, i).len() == allocation(pool, i - 1).len() + slot_copies(n, i - 1));
        assert((i - 1) * q + q == i * q) by (nonlinear_arith);
        let r = SLOTS as int % n;
        let prev = allocation(pool, i - 1).len() as int;
        assert(prev == (i - 1) * q + if i - 1 < r {
            i - 1
        } else {
            r
        });
        assert(slot_copies(n, i - 1) == q + if i - 1 < r {
            1int
        } else {
            0int
        });
    } else {
        assert(allocation(pool, 0).len() == 0);
        assert(0 * (SLOTS as int / pool.len() as int) == 0);
    }
}

/// A non-empty pool fills exactly `SLOTS` slots.
pub proof fn lemma_allocation_fills_every_slot(pool: Seq<usize>)
    requires
        pool.len() > 0,
    ensures
        allocation(pool, pool.len() as int).len() == SLOTS,
{
    let n = pool.len() as int;
    lemma_allocation_len(pool, n);
    vstd::arithmetic::div_mod::lemma_fundamental_div_mod(SLOTS as int, n);
    assert(n * (SLOTS as int / n) == (SLOTS as int / n) * n) by (nonlinear_arith);
}

/// Spreads the `SLOTS` slots of an atlas over the periods of `pool` (see
/// `allocation`); an empty pool gets no slot.
pub fn allocate_slots(pool: &[usize]) -> (r: Vec<usize>)
    ensures
        r@ == allocation(pool@, pool@.len() as int),
        pool@.len() > 0 ==> r@.len() == SLOTS,
        pool@.len() == 0 ==> r@.len() == 0,
{
    let n = pool.len();
    let mut periods: Vec<usize> = Vec::new();
    if n == 0 {
        return periods;
    }
    let other_copies = SLOTS / n;
    let highlighted_copies = SLOTS % n;
    let mut idx: usize = 0;
    while idx < n
        invariant
            n == pool@.len(),
            n > 0,
            other_copies == SLOTS as int / n as int,
            highlighted_copies == SLOTS as int % n as int,
            idx <= n,
            periods@ == allocation(pool@, idx as int),
            periods@.len() <= SLOTS,
        decreases n - idx,
    {
        proof {
            lemma_allocation_len(pool@, idx as int + 1);
            lemma_allocation_fills_every_slot(pool@);
            assert(allocation(pool@, idx as int + 1).len() <= SLOTS) by {
                lemma_allocation_prefix_len(pool@, idx as int + 1, n as int);
            }
        }
        let num = if idx < highlighted_copies {
            other_copies + 1
        } else {
            other_copies
        };
        let mut k: usize = 0;
        while k < num
            invariant
                n == pool@.len(),
                idx < n,
                num == slot_copies(n as int, idx as int),
                k <= num,
                periods@ == allocation(pool@, idx as int) + Seq::new(
                    k as nat,
                    |_j: int| pool@[idx as int],
                ),
                allocation(pool@, idx as int + 1).len() <= SLOTS,
            decreases num - k,
        {
            periods.push(pool[idx]);
            k = k + 1;
            assert(periods@ =~= allocation(pool@, idx as int) + Seq::new(
                k as nat,
                |_j: int| pool@[idx as int],
            ));
        }
        idx = idx + 1;
        assert(periods@ =~= allocation(pool@, idx as int));
    }
    proof {
        lemma_allocation_fills_every_slot(pool@);
    }
    periods
}

proof fn lemma_allocation_prefix_len(pool: Seq<usize>, i: int, j: int)
    requires
        0 <= i <= j <= pool.len(),
    ensures
        allocation(pool, i).len() <= allocation(pool, j).len(),
    decreases j - i,
{
    if i < j {
        lemma_allocation_prefix_len(pool, i, j - 1);
    }
}

proof fn lemma_slot_of_pixel(px: int, py: int, col: int, row: int)
    requires
        0 <= px < FRAME_WIDTH,
        0 <= py < FRAME_WIDTH,
        0 <= col < SLOTS_PER_ROW,
        0 <= row < SLOTS_PER_ROW,
    ensures
        (col * GRID_PITCH + 1 <= px < col * GRID_PITCH + 1 + CLIP_DIM && row * GRID_PITCH + 1 <= py
            < row * GRID_PITCH + 1 + CLIP_DIM) <==> (!on_gridline(px, py) && px / GRID_PITCH as int
            == col && py / GRID_PITCH as int == row),
        !on_gridline(px, py) ==> 0 <= (px / GRID_PITCH as int) < SLOTS_PER_ROW && 0 <= (py
            / GRID_PITCH as int) < SLOTS_PER_ROW,
{
}

/// Number of random positions tried for one slot before it is left empty.
pub const MAX_ATTEMPTS: usize = 10000;

/// Relies on rand::random, drawing a `usize` from the thread-local
/// generator; nothing is assumed of its value.
#[verifier::external_body]
fn random_index() -> (r: usize) {
    rand::random::<usize>()
}

/// Cell `pos` of history `h` shows period `period` in the atlas: it repeats
/// with that period and with no shorter one, and for period 1 it is occupied.
/// Every cell qualifies for period 0.
pub open spec fn qualifies(h: Seq<Seq<u16>>, period: int, pos: int) -> bool {
    &&& (period == 1 ==> h[0][pos] != 0)
    &&& forall|q: int| 1 <= q < period ==> !#[trigger] periodic(h, q, pos)
    &&& periodic(h, period, pos)
}

/// A slot placement for `period`: empty, or a cell of the lattice of side
/// `side` that qualifies for that period.
pub open spec fn placement_ok(
    h: Seq<Seq<u16>>,
    side: int,
    period: int,
    placement: Option<(i32, i32)>,
) -> bool {
    match placement {
        Some((x, y)) => 0 <= x < side && 0 <= y < side && qualifies(h, period, y * side + x),
        None => true,
    }
}

/// An empty placement, or one on a cell of the lattice of side `side`.
pub open spec fn in_lattice(placement: Option<(i32, i32)>, side: int) -> bool {
    match placement {
        Some((x, y)) => 0 <= x < side && 0 <= y < side,
        None => true,
    }
}

/// Every cell of a lattice of `cells` cells qualifies for `period`.
pub open spec fn every_cell_qualifies(h: Seq<Seq<u16>>, cells: int, period: int) -> bool {
    forall|p: int| 0 <= p < cells ==> #[trigger] qualifies(h, period, p)
}

/// Pixel (`px`, `py`) of the atlas frame of generation `s` of a lattice of
/// side `side`: gridlines, then in slot `4 * row + column` the clip around
/// that slot's placement, background where a slot is empty.
pub open spec fn atlas_pixel(
    s: Seq<u16>,
    side: int,
    placements: Seq<Option<(i32, i32)>>,
    px: int,
    py: int,
) -> u8 {
    if on_gridline(px, py) {
        GRIDLINE
    } else {
        let col = px / GRID_PITCH as int;
        let row = py / GRID_PITCH as int;
        let slot = row * SLOTS_PER_ROW as int + col;
        if slot < placements.len() {
            match placements[slot] {
                Some((x, y)) => cell_index(
                    cell_at(
                        s,
                        side,
                        x - CLIP_RADIUS + (px - col * GRID_PITCH as int - 1),
                        y - CLIP_RADIUS + (py - row * GRID_PITCH as int - 1),
                    ),
                ),
                None => BACKGROUND,
            }
        } else {
            BACKGROUND
        }
    }
}

impl Scorer {
    /// Whether cell `position` may show period `period` in the atlas.
    pub fn qualifies(&self, period: usize, position: usize) -> (r: bool)
        requires
            self.wf(),
            self@.len() >= 1,
            period <= self@.len(),
            position < self.cells(),
        ensures
            r == qualifies(self@, period as int, position as int),
    {
        if period == 1 && self.cell(0, position) == 0 {
            return false;
        }
        let mut q: usize = 1;
        while q < period
            invariant
                self.wf(),
                1 <= q,
                period <= self@.len(),
                position < self.cells(),
                forall|k: int| 1 <= k < q ==> !#[trigger] periodic(self@, k, position as int),
            decreases period - q,
        {
            if self.check_for_pattern(q, position) {
                return false;
            }
            q = q + 1;
        }
        self.check_for_pattern(period, position)
    }

    /// The atlas frame of generation `g`: a clip around each placement, in
    /// slot order, four slots to a row.
    pub fn compose_frame(&self, g: usize, placements: &[Option<(i32, i32)>]) -> (r: DisplayFrame)
        requires
            self.wf(),
            g < self@.len(),
            placements@.len() <= SLOTS,
            forall|i: int|
                0 <= i < placements@.len() ==> in_lattice(#[trigger] placements@[i], self.side()),
        ensures
            r.wf(),
            r@.len() == FRAME_WIDTH * FRAME_WIDTH,
            forall|px: int, py: int|
                0 <= px < FRAME_WIDTH && 0 <= py < FRAME_WIDTH ==> #[trigger] r@[frame_index(px, py)]
                    == atlas_pixel(self@[g as int], self.side(), placements@, px, py),
    {
        proof {
            self.lemma_side_bound();
        }
        let ghost s = self@[g as int];
        let ghost side = self.side();
        let mut frame = DisplayFrame::new();
        let mut idx: usize = 0;
        while idx < placements.len()
            invariant
                self.wf(),
                g < self@.len(),
                s == self@[g as int],
                side == self.side(),
                0 < side <= MAX_SIDE,
                placements@.len() <= SLOTS,
                forall|i: int|
                    0 <= i < placements@.len() ==> in_lattice(#[trigger] placements@[i], side),
                idx <= placements@.len(),
                frame.wf(),
                forall|px: int, py: int|
                    0 <= px < FRAME_WIDTH && 0 <= py < FRAME_WIDTH ==> #[trigger] frame@[frame_index(px, py)]
                        == atlas_pixel(s, side, placements@.subrange(0, idx as int), px, py),
            decreases placements@.len() - idx,
        {
            let ghost done = placements@.subrange(0, idx as int);
            let ghost next = placements@.subrange(0, idx as int + 1);
            let ghost before = frame@;
            let col = idx % SLOTS_PER_ROW;
            let row = idx / SLOTS_PER_ROW;
            let fx = col * GRID_PITCH + 1;
            let fy = row * GRID_PITCH + 1;
            match placements[idx] {
                Some((x, y)) => {
                    let clip = self.clip(g, x, y);
                    frame.put_clip(fx, fy, &clip);
                    proof {
                        assert forall|px: int, py: int|
                            0 <= px < FRAME_WIDTH && 0 <= py < FRAME_WIDTH implies #[trigger] frame@[frame_index(
                                px,
                                py,
                            )] == atlas_pixel(s, side, next, px, py) by {
                            lemma_slot_of_pixel(px, py, col as int, row as int);
                            if fx <= px < fx + CLIP_DIM && fy <= py < fy + CLIP_DIM {
                                let dx = px - fx;
                                let dy = py - fy;
                                assert(clip@[dy * CLIP_DIM + dx] == cell_at(
                                    s,
                                    side,
                                    x - CLIP_RADIUS + dx,
                                    y - CLIP_RADIUS + dy,
                                ));
                            } else {
                                assert(before[frame_index(px, py)] == atlas_pixel(s, side, done, px, py));
                            }
                        }
                    }
                },
                None => {
                    proof {
                        assert forall|px: int, py: int|
                            0 <= px < FRAME_WIDTH && 0 <= py < FRAME_WIDTH implies #[trigger] frame@[frame_index(
                                px,
                                py,
                            )] == atlas_pixel(s, side, next, px, py) by {
                            lemma_slot_of_pixel(px, py, col as int, row as int);
                            assert(before[frame_index(px, py)] == atlas_pixel(s, side, done, px, py));
                        }
                    }
                },
            }
            idx = idx + 1;
        }
        assert(placements@.subrange(0, placements@.len() as int) =~= placements@);
        frame
    }

    /// The atlas frames of all captured generations, in order.
    pub fn atlas_frames(&self, placements: &[Option<(i32, i32)>]) -> (r: Vec<DisplayFrame>)
        requires
            self.wf(),
            placements@.len() <= SLOTS,
            forall|i: int|
                0 <= i < placements@.len() ==> in_lattice(#[trigger] placements@[i], self.side()),
        ensures
            r@.len() == self@.len(),
            forall|g: int|
                0 <= g < r@.len() ==> (#[trigger] r@[g]).wf() && r@[g]@.len() == FRAME_WIDTH
                    * FRAME_WIDTH,
            forall|g: int, px: int, py: int|
                0 <= g < r@.len() && 0 <= px < FRAME_WIDTH && 0 <= py < FRAME_WIDTH
                    ==> #[trigger] r@[g]@[frame_index(px, py)] == atlas_pixel(
                    self@[g],
                    self.side(),
                    placements@,
                    px,
                    py,
                ),
    {
        let n = self.generations();
        let mut frames: Vec<DisplayFrame> = Vec::new();
        let mut g: usize = 0;
        while g < n
            invariant
                self.wf(),
                n == self@.len(),
                placements@.len() <= SLOTS,
                forall|i: int|
                    0 <= i < placements@.len() ==> in_lattice(#[trigger] placements@[i], self.side()),
                g <= n,
                frames@.len() == g,
                forall|k: int|
                    0 <= k < g ==> (#[trigger] frames@[k]).wf() && frames@[k]@.len() == FRAME_WIDTH
                        * FRAME_WIDTH,
                forall|k: int, px: int, py: int|
                    0 <= k < g && 0 <= px < FRAME_WIDTH && 0 <= py < FRAME_WIDTH
                        ==> #[trigger] frames@[k]@[frame_index(px, py)] == atlas_pixel(
                        self@[k],
                        self.side(),
                        placements@,
                        px,
                        py,
                    ),
            decreases n - g,
        {
            let frame = self.compose_frame(g, placements);
            frames.push(frame);
            g = g + 1;
        }
        frames
    }

    /// The placement that the draw (`rx`, `ry`) gives for `period`: the cell
    /// (`rx % side`, `ry % side`) when it qualifies, none otherwise.
    pub fn place_from_draw(&self, period: usize, rx: usize, ry: usize) -> (r: Option<(i32, i32)>)
        requires
            self.wf(),
            self@.len() >= 1,
            period <= self@.len(),
        ensures
            r == if qualifies(
                self@,
                period as int,
                (ry as int % self.side()) * self.side() + rx as int % self.side(),
            ) {
                Some(((rx as int % self.side()) as i32, (ry as int % self.side()) as i32))
            } else {
                None::<(i32, i32)>
            },
    {
        proof {
            self.lemma_side_bound();
        }
        let side = self.lattice_side();
        let x = rx % side;
        let y = ry % side;
        proof {
            assert(y * side + x < side * side <= MAX_SIDE * MAX_SIDE) by (nonlinear_arith)
                requires
                    x < side,
                    y < side,
                    side <= MAX_SIDE,
            ;
        }
        if self.qualifies(period, y * side + x) {
            Some((x as i32, y as i32))
        } else {
            None
        }
    }

    /// One placement for each slot of `periods`: a random cell that qualifies
    /// for the slot's period, or none when `MAX_ATTEMPTS` draws found none. A
    /// slot whose period every cell qualifies for (period 0, for one) always
    /// gets a placement.
    pub fn select_positions(&self, periods: &[usize]) -> (r: Vec<Option<(i32, i32)>>)
        requires
            self.wf(),
            self@.len() >= 1,
            forall|i: int| 0 <= i < periods@.len() ==> #[trigger] periods@[i] <= self@.len(),
        ensures
            r@.len() == periods@.len(),
            forall|i: int|
                0 <= i < r@.len() ==> placement_ok(
                    self@,
                    self.side(),
                    periods@[i] as int,
                    #[trigger] r@[i],
                ),
            forall|i: int|
                0 <= i < r@.len() && every_cell_qualifies(self@, self.cells(), periods@[i] as int)
                    ==> (#[trigger] r@[i]) is Some,
    {
        proof {
            self.lemma_side_bound();
        }
        let side = self.lattice_side();
        let mut result: Vec<Option<(i32, i32)>> = Vec::new();
        let mut i: usize = 0;
        while i < periods.len()
            invariant
                self.wf(),
                self@.len() >= 1,
                side == self.side(),
                0 < side <= MAX_SIDE,
                self.cells() == side * side,
                forall|k: int| 0 <= k < periods@.len() ==> #[trigger] periods@[k] <= self@.len(),
                i <= periods@.len(),
                result@.len() == i,
                forall|k: int|
                    0 <= k < i ==> placement_ok(self@, side as int, periods@[k] as int, #[trigger] result@[k]),
                forall|k: int|
                    0 <= k < i && every_cell_qualifies(self@, self.cells(), periods@[k] as int)
                        ==> (#[trigger] result@[k]) is Some,
            decreases periods@.len() - i,
        {
            let period = periods[i];
            let mut found: Option<(i32, i32)> = None;
            let mut attempt: usize = 0;
            while attempt < MAX_ATTEMPTS && found.is_none()
                invariant
                    self.wf(),
                    self@.len() >= 1,
                    side == self.side(),
                    0 < side <= MAX_SIDE,
                    self.cells() == side * side,
                    period <= self@.len(),
                    attempt <= MAX_ATTEMPTS,
                    placement_ok(self@, side as int, period as int, found),
                    every_cell_qualifies(self@, self.cells(), period as int) ==> (attempt == 0
                        || found is Some),
                decreases MAX_ATTEMPTS - attempt,
            {
                let rx = random_index();
                let ry = random_index();
                found = self.place_from_draw(period, rx, ry);
                proof {
                    let x = rx as int % side as int;
                    let y = ry as int % side as int;
                    assert(y * side + x < side * side) by (nonlinear_arith)
                        requires
                            0 <= x < side,
                            0 <= y < side,
                    ;
                    if every_cell_qualifies(self@, self.cells(), period as int) {
                        assert(qualifies(self@, period as int, y * side + x));
                    }
                }
                attempt = attempt + 1;
            }
            let ghost before = result@;
            result.push(found);
            i = i + 1;
            proof {
                assert forall|k: int| 0 <= k < i implies placement_ok(
                    self@,
                    side as int,
                    periods@[k] as int,
                    #[trigger] result@[k],
                ) by {
                    if k < i - 1 {
                        assert(result@[k] == before[k]);
                    }
                }
                assert forall|k: int|
                    0 <= k < i && every_cell_qualifies(self@, self.cells(), periods@[k] as int)
                        implies (#[trigger] result@[k]) is Some by {
                    if k < i - 1 {
                        assert(result@[k] == before[k]);
                    }
                }
            }
        }
        result
    }
}

} // verus!
