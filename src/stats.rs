use vstd::prelude::*;

verus! {

/// Number of generations the simulation advances between two density
/// snapshots while a parameter vector is being classified.
pub const BURST_GENERATIONS: u32 = 20;

/// Number of bursts a classification may consume before it gives up with
/// [`AutomaticJudgement::Unknown`].
pub const RETRY_BUDGET: usize = 4;

/// A density snapshot: the lattice density is `occupied_cells / total_cells`,
/// kept as the exact pair of counts.
#[derive(Clone, Copy, Debug, PartialEq, Eq, Structural)]
pub struct Stats {
    pub occupied_cells: u64,
    pub total_cells: u64,
}

/// Number of non-zero cells in `s`.
pub open spec fn count_nonzero(s: Seq<u16>) -> nat
    decreases s.len(),
{
    if s.len() == 0 {
        0
    } else {
        count_nonzero(s.drop_last()) + if s.last() != 0 { 1nat } else { 0nat }
    }
}

proof fn lemma_count_nonzero_bound(s: Seq<u16>)
    ensures
        count_nonzero(s) <= s.len(),
    decreases s.len(),
{
    if s.len() > 0 {
        lemma_count_nonzero_bound(s.drop_last());
    }
}

/// The density of `a` is strictly greater than the density of `b`. A snapshot
/// of an empty lattice has no density and exceeds nothing, nor is exceeded.
pub open spec fn exceeds(a: Stats, b: Stats) -> bool {
    a.occupied_cells * b.total_cells > b.occupied_cells * a.total_cells
}

/// The density of `a` is below the extinction threshold of `1 / 100000`.
pub open spec fn is_dead(a: Stats) -> bool {
    a.occupied_cells * 100000 < a.total_cells
}

proof fn lemma_product_fits(a: u64, b: u64)
    ensures
        a * b <= u128::MAX,
{
    assert(a * b <= u64::MAX * u64::MAX) by (nonlinear_arith)
        requires
            a <= u64::MAX,
            b <= u64::MAX,
    ;
}

impl Stats {
    /// The density snapshot of a lattice given as one value per cell.
    pub fn of(world: &[u16]) -> (r: Stats)
        ensures
            r.total_cells == world@.len(),
            r.occupied_cells == count_nonzero(world@),
    {
        let mut occupied: u64 = 0;
        let n = world.len();
        let mut i: usize = 0;
        while i < n
            invariant
                n == world@.len(),
                i <= n,
                occupied == count_nonzero(world@.subrange(0, i as int)),
            decreases n - i,
        {
            proof {
                let next = world@.subrange(0, i as int + 1);
                assert(next.drop_last() =~= world@.subrange(0, i as int));
                lemma_count_nonzero_bound(world@.subrange(0, i as int));
            }
            if world[i] != 0 {
                occupied = occupied + 1;
            }
            i = i + 1;
        }
        assert(world@.subrange(0, world@.len() as int) =~= world@);
        Stats { occupied_cells: occupied, total_cells: world.len() as u64 }
    }

    /// Whether the density of `self` is strictly greater than that of `other`.
    pub fn exceeds(&self, other: &Stats) -> (r: bool)
        ensures
            r == exceeds(*self, *other),
    {
        proof {
            lemma_product_fits(self.occupied_cells, other.total_cells);
            lemma_product_fits(other.occupied_cells, self.total_cells);
        }
        (self.occupied_cells as u128) * (other.total_cells as u128) > (other.occupied_cells as u128)
            * (self.total_cells as u128)
    }

    /// Whether the density of `self` is below the extinction threshold.
    pub fn is_dead(&self) -> (r: bool)
        ensures
            r == is_dead(*self),
    {
        (self.occupied_cells as u128) * 100000 < self.total_cells as u128
    }
}

/// The verdict of a classification.
#[derive(Clone, Copy, Debug, PartialEq, Eq, Structural)]
pub enum AutomaticJudgement {
    Dead,
    Chaotic,
    Unknown,
}

impl AutomaticJudgement {
    /// Neither dead nor obviously chaotic.
    pub fn is_interesting(self) -> (r: bool)
        ensures
            r == (self is Unknown),
    {
        match self {
            AutomaticJudgement::Dead | AutomaticJudgement::Chaotic => false,
            AutomaticJudgement::Unknown => true,
        }
    }

    pub fn is_unknown(self) -> (r: bool)
        ensures
            r == (self is Unknown),
    {
        if let AutomaticJudgement::Unknown = self {
            true
        } else {
            false
        }
    }
}

/// The verdict on a history of snapshots whose first element was taken right
/// after a reset: Chaotic when every later snapshot is denser than the first,
/// else Dead when the last one is below the extinction threshold, else
/// Unknown. A history without any burst is Unknown.
pub open spec fn judgement_of(h: Seq<Stats>) -> AutomaticJudgement {
    if h.len() <= 1 {
        AutomaticJudgement::Unknown
    } else if forall|i: int| 1 <= i < h.len() ==> exceeds(#[trigger] h[i], h[0]) {
        AutomaticJudgement::Chaotic
    } else if is_dead(h.last()) {
        AutomaticJudgement::Dead
    } else {
        AutomaticJudgement::Unknown
    }
}

/// What the driver of a classification does next.
#[derive(Clone, Copy, Debug, PartialEq, Eq, Structural)]
pub enum ClassifierAction {
    /// Advance the simulation by one burst and push the new snapshot.
    RunBurst,
    /// The classification is over, with this verdict.
    Finish(AutomaticJudgement),
}

/// The next step of a classification with history `h`: finish as soon as a
/// burst gave a firm verdict, finish with Unknown once the retry budget is
/// spent, and run another burst otherwise.
pub open spec fn next_action_of(h: Seq<Stats>) -> ClassifierAction {
    if h.len() >= 2 && !(judgement_of(h) is Unknown) {
        ClassifierAction::Finish(judgement_of(h))
    } else if h.len() >= RETRY_BUDGET + 1 {
        ClassifierAction::Finish(AutomaticJudgement::Unknown)
    } else {
        ClassifierAction::RunBurst
    }
}

/// The history of one classification attempt.
pub struct Judge {
    snapshots: Vec<Stats>,
}

impl View for Judge {
    type V = Seq<Stats>;

    closed spec fn view(&self) -> Seq<Stats> {
        self.snapshots@
    }
}

impl Judge {
    /// Starts a history with the snapshot taken right after a reset.
    pub fn new(initial: Stats) -> (r: Judge)
        ensures
            r@ == seq![initial],
    {
        let r = Judge { snapshots: vec![initial] };
        assert(r.snapshots@ =~= seq![initial]);
        r
    }

    /// Appends the snapshot taken after a burst.
    pub fn push_snapshot(&mut self, snapshot: Stats)
        ensures
            final(self)@ == old(self)@.push(snapshot),
    {
        self.snapshots.push(snapshot);
    }

    /// The verdict on the history so far.
    pub fn judgement(&self) -> (r: AutomaticJudgement)
        ensures
            r == judgement_of(self@),
    {
        let ns = self.snapshots.len();
        if ns <= 1 {
            return AutomaticJudgement::Unknown;
        }
        let d0 = self.snapshots[0];
        let mut all_exceed = true;
        let mut i: usize = 1;
        while i < ns
            invariant
                ns == self.snapshots@.len(),
                1 <= i <= ns,
                d0 == self.snapshots@[0],
                all_exceed == forall|k: int| 1 <= k < i ==> exceeds(#[trigger] self.snapshots@[k], d0),
            decreases ns - i,
        {
            if !self.snapshots[i].exceeds(&d0) {
                all_exceed = false;
            }
            i = i + 1;
        }
        if all_exceed {
            return AutomaticJudgement::Chaotic;
        }
        if self.snapshots[ns - 1].is_dead() {
            return AutomaticJudgement::Dead;
        }
        AutomaticJudgement::Unknown
    }

    /// The next step of the classification that this history belongs to.
    pub fn next_action(&self) -> (r: ClassifierAction)
        ensures
            r == next_action_of(self@),
    {
        let ns = self.snapshots.len();
        if ns >= 2 {
            let j = self.judgement();
            if !j.is_unknown() {
                return ClassifierAction::Finish(j);
            }
        }
        if ns >= RETRY_BUDGET + 1 {
            ClassifierAction::Finish(AutomaticJudgement::Unknown)
        } else {
            ClassifierAction::RunBurst
        }
    }
}

} // verus!
