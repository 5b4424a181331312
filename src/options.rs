use vstd::prelude::*;

use crate::odometer::{
    decrement, decrement_fits, decremented, increment, increment_fits, incremented,
    well_formed_params,
};

verus! {

/// Side of the square lattice, in cells.
pub const WORLD_SIZE: u32 = 1024;

/// Capacity of a parameter vector.
pub const PARAMETER_SPACE: usize = 128;

/// Largest display zoom factor.
pub const MAX_ZOOM: u32 = 4;

/// The state that the explorer hands to the simulation engine with each call.
pub struct Options {
    /// The parameter vector: element 0 is the divisor `d`, elements `1..=d`
    /// the active digits, the rest padding.
    pub kernel_arguments: [i16; PARAMETER_SPACE],
    pub offset: [i32; 2],
    pub zoom: u32,
    /// Generations advanced per displayed frame.
    pub rate: u32,
    /// Extra generations to advance on the next call.
    pub skip: u32,
    /// Reinitialise the lattice on the next call.
    pub reset: bool,
    /// Present the next frame on screen.
    pub display: bool,
}

impl Clone for Options {
    fn clone(&self) -> (r: Options)
        ensures
            r == *self,
    {
        Options {
            kernel_arguments: self.kernel_arguments,
            offset: self.offset,
            zoom: self.zoom,
            rate: self.rate,
            skip: self.skip,
            reset: self.reset,
            display: self.display,
        }
    }
}

impl Default for Options {
    fn default() -> (r: Options)
        ensures
            forall|i: int| 0 <= i < PARAMETER_SPACE ==> #[trigger] r.kernel_arguments@[i] == 0,
            r.offset@ == seq![0i32, 0i32],
            r.zoom == 1,
            r.rate == 1,
            r.skip == 0,
            r.reset,
            r.display,
    {
        let r = Options {
            kernel_arguments: [0; PARAMETER_SPACE],
            offset: [0, 0],
            zoom: 1,
            rate: 1,
            skip: 0,
            reset: true,
            display: true,
        };
        assert(r.offset@ =~= seq![0i32, 0i32]);
        r
    }
}

/// `v` limited to `lo..=hi`.
pub open spec fn clamp(v: int, lo: int, hi: int) -> int {
    if v < lo {
        lo
    } else if v > hi {
        hi
    } else {
        v
    }
}

/// Length of the shortest prefix of the first `n` elements of `s` that holds
/// every non-zero element among them.
pub open spec fn trimmed_len(s: Seq<i16>, n: int) -> int
    decreases n,
{
    if n <= 0 {
        0
    } else if s[n - 1] != 0 {
        n
    } else {
        trimmed_len(s, n - 1)
    }
}

proof fn lemma_trimmed_len_range(s: Seq<i16>, n: int)
    requires
        0 <= n,
    ensures
        0 <= trimmed_len(s, n) <= n,
    decreases n,
{
    if n > 0 {
        lemma_trimmed_len_range(s, n - 1);
    }
}

impl Options {
    /// Zooms in (`increase`) or out by one step, within `1..=MAX_ZOOM`.
    pub fn offset_zoom(&mut self, increase: bool)
        ensures
            *final(self) == (Options {
                zoom: clamp(
                    if increase {
                        old(self).zoom + 1
                    } else {
                        old(self).zoom - 1
                    },
                    1,
                    MAX_ZOOM as int,
                ) as u32,
                ..*old(self)
            }),
    {
        if increase {
            if self.zoom >= MAX_ZOOM {
                self.zoom = MAX_ZOOM;
            } else {
                self.zoom = self.zoom + 1;
            }
        } else {
            if self.zoom <= 2 {
                self.zoom = 1;
            } else if self.zoom > MAX_ZOOM + 1 {
                self.zoom = MAX_ZOOM;
            } else {
                self.zoom = self.zoom - 1;
            }
        }
    }

    /// Doubles the number of generations per frame (from a pause, to 1), or
    /// halves it (from 1, to a pause).
    pub fn offset_rate(&mut self, increase: bool)
        requires
            increase ==> old(self).rate <= u32::MAX / 2,
        ensures
            *final(self) == (Options {
                rate: (if increase {
                    if old(self).rate == 0 {
                        1int
                    } else {
                        old(self).rate * 2
                    }
                } else {
                    if old(self).rate > 1 {
                        old(self).rate as int / 2
                    } else {
                        0int
                    }
                }) as u32,
                ..*old(self)
            }),
    {
        if increase {
            if self.rate == 0 {
                self.rate = 1;
            } else {
                self.rate = self.rate * 2;
            }
        } else {
            if self.rate > 1 {
                self.rate = self.rate / 2;
            } else {
                self.rate = 0;
            }
        }
    }

    /// Stops advancing the lattice between frames.
    pub fn pause(&mut self)
        ensures
            *final(self) == (Options { rate: 0, ..*old(self) }),
    {
        self.rate = 0;
    }

    /// Asks for `num_frames` more generations on the next call.
    pub fn skip_frames(&mut self, num_frames: u32)
        requires
            old(self).skip + num_frames <= u32::MAX,
        ensures
            *final(self) == (Options { skip: (old(self).skip + num_frames) as u32, ..*old(self) }),
    {
        self.skip = self.skip + num_frames;
    }

    /// Asks for a fresh lattice, and one generation, on the next call.
    pub fn reset_world(&mut self)
        requires
            old(self).skip < u32::MAX,
        ensures
            *final(self) == (Options { reset: true, skip: (old(self).skip + 1) as u32, ..*old(self) }),
    {
        self.reset = true;
        self.skip_frames(1);
    }

    /// Moves the parameter vector one step forward (`increase`) or back
    /// through the odometer, and asks for a fresh lattice.
    pub fn offset_arguments(&mut self, increase: bool)
        requires
            well_formed_params(old(self).kernel_arguments@),
            increase ==> increment_fits(old(self).kernel_arguments@),
            !increase ==> decrement_fits(old(self).kernel_arguments@),
            old(self).skip < u32::MAX,
        ensures
            final(self).kernel_arguments@ == if increase {
                incremented(old(self).kernel_arguments@)
            } else {
                decremented(old(self).kernel_arguments@)
            },
            *final(self) == (Options {
                kernel_arguments: final(self).kernel_arguments,
                reset: true,
                skip: (old(self).skip + 1) as u32,
                ..*old(self)
            }),
    {
        if increase {
            increment(&mut self.kernel_arguments);
        } else {
            decrement(&mut self.kernel_arguments);
        }
        self.reset_world();
    }

    /// Forgets the one-shot requests once a frame is done.
    pub fn after_frame(&mut self)
        ensures
            *final(self) == (Options { reset: false, skip: 0, ..*old(self) }),
    {
        self.reset = false;
        self.skip = 0;
    }

    /// The parameter vector without its trailing zeros.
    pub fn active_parameters(&self) -> (r: Vec<i16>)
        ensures
            r@ == self.kernel_arguments@.subrange(
                0,
                trimmed_len(self.kernel_arguments@, PARAMETER_SPACE as int),
            ),
    {
        let args = &self.kernel_arguments;
        let mut end: usize = PARAMETER_SPACE;
        while end > 0 && args[end - 1] == 0
            invariant
                end <= PARAMETER_SPACE,
                trimmed_len(args@, PARAMETER_SPACE as int) == trimmed_len(args@, end as int),
            decreases end,
        {
            end = end - 1;
        }
        proof {
            lemma_trimmed_len_range(args@, end as int);
        }
        let mut r: Vec<i16> = Vec::new();
        let mut i: usize = 0;
        while i < end
            invariant
                end <= PARAMETER_SPACE,
                i <= end,
                r@ == args@.subrange(0, i as int),
            decreases end - i,
        {
            r.push(args[i]);
            i = i + 1;
            assert(r@ =~= args@.subrange(0, i as int));
        }
        r
    }
}

} // verus!
