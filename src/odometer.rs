use vstd::prelude::*;

use crate::options::PARAMETER_SPACE;

verus! {

/// The active length of a parameter vector, which is also the base of the
/// odometer: element 0.
pub open spec fn divisor(s: Seq<i16>) -> int {
    s[0] as int
}

/// A parameter vector of full capacity whose divisor lies in `1..capacity`.
pub open spec fn well_formed_params(s: Seq<i16>) -> bool {
    &&& s.len() == PARAMETER_SPACE
    &&& 0 < divisor(s) < PARAMETER_SPACE
}

/// A well-formed vector whose digits at positions `2..=d` lie in `0..d`. The
/// leading digit (position 1) is unbounded.
pub open spec fn valid_params(s: Seq<i16>) -> bool {
    &&& well_formed_params(s)
    &&& forall|j: int| 2 <= j <= divisor(s) ==> 0 <= #[trigger] s[j] < divisor(s)
}

/// The carry that reaches position `j` (`1 <= j <= d`) when `s` is incremented:
/// position `d` receives the increment itself, and each position `j + 1`
/// passes one on when its digit plus its own carry reaches `d`.
pub open spec fn carry_in(s: Seq<i16>, j: int) -> int
    decreases divisor(s) - j,
{
    if j >= divisor(s) {
        1
    } else if s[j + 1] + carry_in(s, j + 1) >= divisor(s) {
        1
    } else {
        0
    }
}

/// The borrow that reaches position `j` (`1 <= j <= d`) when `s` is
/// decremented: position `d` receives the decrement itself, and each position
/// `j + 1` passes one on when its digit minus its own borrow is `-1`.
pub open spec fn borrow_in(s: Seq<i16>, j: int) -> int
    decreases divisor(s) - j,
{
    if j >= divisor(s) {
        1
    } else if s[j + 1] - borrow_in(s, j + 1) == -1 {
        1
    } else {
        0
    }
}

/// No active digit of `s` leaves the range of `i16` when it receives its
/// carry.
pub open spec fn increment_fits(s: Seq<i16>) -> bool {
    forall|j: int| 1 <= j <= divisor(s) ==> #[trigger] s[j] + carry_in(s, j) <= i16::MAX
}

/// No active digit of `s` leaves the range of `i16` when it gives up its
/// borrow.
pub open spec fn decrement_fits(s: Seq<i16>) -> bool {
    forall|j: int| 1 <= j <= divisor(s) ==> #[trigger] s[j] - borrow_in(s, j) >= i16::MIN
}

/// `s` after one increment: each active digit receives its carry, and a digit
/// at positions `2..=d` that reaches `d` or more becomes 0. The leading digit
/// is never reset; element 0 and the padding are kept.
pub open spec fn incremented(s: Seq<i16>) -> Seq<i16> {
    Seq::new(
        s.len(),
        |j: int|
            if 1 <= j <= divisor(s) {
                let t = s[j] + carry_in(s, j);
                if j >= 2 && t >= divisor(s) {
                    0i16
                } else {
                    t as i16
                }
            } else {
                s[j]
            },
    )
}

/// `s` after one decrement: each active digit gives up its borrow, and a digit
/// at positions `2..=d` that reaches `-1` becomes `d - 1`. The leading digit is
/// never wrapped and may become negative; element 0 and the padding are kept.
pub open spec fn decremented(s: Seq<i16>) -> Seq<i16> {
    Seq::new(
        s.len(),
        |j: int|
            if 1 <= j <= divisor(s) {
                let t = s[j] - borrow_in(s, j);
                if j >= 2 && t == -1 {
                    (divisor(s) - 1) as i16
                } else {
                    t as i16
                }
            } else {
                s[j]
            },
    )
}

/// Advances the odometer by one step: adds 1 to the least significant digit
/// (position `d`) and carries leftward. Position 1 grows without bound.
pub fn increment(args: &mut [i16; PARAMETER_SPACE])
    requires
        well_formed_params(old(args)@),
        increment_fits(old(args)@),
    ensures
        final(args)@ == incremented(old(args)@),
{
    let ghost s0 = args@;
    let d: i16 = args[0];
    let du: usize = d as usize;
    assert(s0[du as int] + carry_in(s0, du as int) <= i16::MAX);
    args[du] = args[du] + 1;
    let mut i: usize = du;
    while i > 1
        invariant
            s0.len() == PARAMETER_SPACE,
            args@.len() == PARAMETER_SPACE,
            d == s0[0],
            du as int == d as int,
            0 < d,
            0 < du < PARAMETER_SPACE,
            1 <= i <= du,
            increment_fits(s0),
            forall|j: int| i < j <= du ==> #[trigger] args@[j] == incremented(s0)[j],
            args@[i as int] == s0[i as int] + carry_in(s0, i as int),
            forall|j: int|
                0 <= j < PARAMETER_SPACE && (j < i || du < j) ==> #[trigger] args@[j] == s0[j],
        decreases i,
    {
        proof {
            let k = i as int;
            assert(carry_in(s0, k - 1) == if args@[k] >= d { 1int } else { 0int });
            assert(incremented(s0)[k] == if args@[k] >= d { 0i16 } else { args@[k] });
        }
        if args[i] >= d {
            args[i] = 0;
            assert(s0[i - 1] + carry_in(s0, i - 1) <= i16::MAX);
            args[i - 1] = args[i - 1] + 1;
        }
        i = i - 1;
    }
    assert(args@ =~= incremented(s0));
}

/// Moves the odometer back by one step: subtracts 1 from the least significant
/// digit (position `d`) and borrows leftward. Nothing is clamped: from a vector
/// whose active digits are all 0 the leading digit becomes negative.
pub fn decrement(args: &mut [i16; PARAMETER_SPACE])
    requires
        well_formed_params(old(args)@),
        decrement_fits(old(args)@),
    ensures
        final(args)@ == decremented(old(args)@),
{
    let ghost s0 = args@;
    let d: i16 = args[0];
    let du: usize = d as usize;
    assert(s0[du as int] - borrow_in(s0, du as int) >= i16::MIN);
    args[du] = args[du] - 1;
    let mut i: usize = du;
    while i > 1
        invariant
            s0.len() == PARAMETER_SPACE,
            args@.len() == PARAMETER_SPACE,
            d == s0[0],
            du as int == d as int,
            0 < d,
            0 < du < PARAMETER_SPACE,
            1 <= i <= du,
            decrement_fits(s0),
            forall|j: int| i < j <= du ==> #[trigger] args@[j] == decremented(s0)[j],
            args@[i as int] == s0[i as int] - borrow_in(s0, i as int),
            forall|j: int|
                0 <= j < PARAMETER_SPACE && (j < i || du < j) ==> #[trigger] args@[j] == s0[j],
        decreases i,
    {
        proof {
            let k = i as int;
            assert(borrow_in(s0, k - 1) == if args@[k] == -1 { 1int } else { 0int });
            assert(decremented(s0)[k] == if args@[k] == -1 { (d - 1) as i16 } else { args@[k] });
        }
        if args[i] == -1 {
            args[i] = d - 1;
            assert(s0[i - 1] - borrow_in(s0, i - 1) >= i16::MIN);
            args[i - 1] = args[i - 1] - 1;
        }
        i = i - 1;
    }
    assert(args@ =~= decremented(s0));
}

/// Whether `args` can be stepped forward (`increase`) or back with every
/// active digit staying within the range of `i16`.
pub fn step_fits(args: &[i16; PARAMETER_SPACE], increase: bool) -> (r: bool)
    requires
        well_formed_params(args@),
    ensures
        r == if increase {
            increment_fits(args@)
        } else {
            decrement_fits(args@)
        },
{
    let ghost s = args@;
    let d: i16 = args[0];
    let du: usize = d as usize;
    let mut i: usize = du;
    let mut carry: i32 = 1;
    while i > 0
        invariant
            s == args@,
            well_formed_params(s),
            d == s[0],
            du as int == d as int,
            i <= du,
            i >= 1 ==> carry == if increase {
                carry_in(s, i as int)
            } else {
                borrow_in(s, i as int)
            },
            forall|j: int|
                i < j <= du ==> if increase {
                    #[trigger] s[j] + carry_in(s, j) <= i16::MAX
                } else {
                    s[j] - borrow_in(s, j) >= i16::MIN
                },
        decreases i,
    {
        let v = args[i] as i32;
        if increase {
            if v + carry > i16::MAX as i32 {
                return false;
            }
            carry = if v + carry >= d as i32 {
                1
            } else {
                0
            };
        } else {
            if v - carry < i16::MIN as i32 {
                return false;
            }
            carry = if v - carry == -1 {
                1
            } else {
                0
            };
        }
        i = i - 1;
    }
    true
}

proof fn lemma_borrow_after_increment(s: Seq<i16>, j: int)
    requires
        valid_params(s),
        1 <= j <= divisor(s),
    ensures
        borrow_in(incremented(s), j) == carry_in(s, j),
    decreases divisor(s) - j,
{
    let w = incremented(s);
    assert(divisor(w) == divisor(s));
    if j < divisor(s) {
        lemma_borrow_after_increment(s, j + 1);
        assert(s[j + 1] < divisor(s));
    }
}

proof fn lemma_carry_after_decrement(s: Seq<i16>, j: int)
    requires
        valid_params(s),
        1 <= j <= divisor(s),
    ensures
        carry_in(decremented(s), j) == borrow_in(s, j),
    decreases divisor(s) - j,
{
    let w = decremented(s);
    assert(divisor(w) == divisor(s));
    if j < divisor(s) {
        lemma_carry_after_decrement(s, j + 1);
        assert(0 <= s[j + 1]);
    }
}

/// Incrementing and then decrementing a valid vector gives it back, wherever
/// the increment is defined (the leading digit stays within `i16`); the
/// incremented vector meets what `decrement` requires.
pub proof fn lemma_increment_then_decrement(s: Seq<i16>)
    requires
        valid_params(s),
        s[1] + carry_in(s, 1) <= i16::MAX,
    ensures
        increment_fits(s),
        well_formed_params(incremented(s)),
        decrement_fits(incremented(s)),
        decremented(incremented(s)) == s,
{
    let w = incremented(s);
    assert(divisor(w) == divisor(s));
    assert forall|j: int| 1 <= j <= divisor(s) implies #[trigger] s[j] + carry_in(s, j)
        <= i16::MAX by {
        if j >= 2 {
            assert(0 <= s[j] < divisor(s));
        }
    }
    assert forall|j: int| 1 <= j <= divisor(s) implies borrow_in(w, j) == carry_in(s, j) by {
        lemma_borrow_after_increment(s, j);
    }
    assert forall|j: int| 1 <= j <= divisor(w) implies #[trigger] w[j] - borrow_in(w, j)
        >= i16::MIN by {
        lemma_borrow_after_increment(s, j);
        if j >= 2 {
            assert(0 <= s[j] < divisor(s));
        }
    }
    assert(decremented(w) =~= s);
}

/// Decrementing and then incrementing a valid vector gives it back, wherever
/// the decrement is defined (the leading digit stays within `i16`); the
/// decremented vector meets what `increment` requires.
pub proof fn lemma_decrement_then_increment(s: Seq<i16>)
    requires
        valid_params(s),
        s[1] - borrow_in(s, 1) >= i16::MIN,
    ensures
        decrement_fits(s),
        well_formed_params(decremented(s)),
        increment_fits(decremented(s)),
        incremented(decremented(s)) == s,
{
    let w = decremented(s);
    assert(divisor(w) == divisor(s));
    assert forall|j: int| 1 <= j <= divisor(s) implies #[trigger] s[j] - borrow_in(s, j)
        >= i16::MIN by {
        if j >= 2 {
            assert(0 <= s[j] < divisor(s));
        }
    }
    assert forall|j: int| 1 <= j <= divisor(s) implies carry_in(w, j) == borrow_in(s, j) by {
        lemma_carry_after_decrement(s, j);
    }
    assert forall|j: int| 1 <= j <= divisor(w) implies #[trigger] w[j] + carry_in(w, j)
        <= i16::MAX by {
        lemma_carry_after_decrement(s, j);
        if j >= 2 {
            assert(0 <= s[j] < divisor(s));
        }
    }
    assert(incremented(w) =~= s);
}

/// The number that the active digits `1..=k` of `s` spell in base `d`, the
/// leading digit most significant.
pub open spec fn odometer_value(s: Seq<i16>, k: int) -> int
    decreases k,
{
    if k <= 0 {
        0
    } else {
        odometer_value(s, k - 1) * divisor(s) + s[k]
    }
}

proof fn lemma_value_after_increment(s: Seq<i16>, k: int)
    requires
        valid_params(s),
        s[1] + carry_in(s, 1) <= i16::MAX,
        1 <= k <= divisor(s),
    ensures
        odometer_value(incremented(s), k) == odometer_value(s, k) + carry_in(s, k),
    decreases k,
{
    let w = incremented(s);
    let d = divisor(s);
    assert(divisor(w) == d);
    if k > 1 {
        lemma_value_after_increment(s, k - 1);
        assert(0 <= s[k] < d);
        let a = odometer_value(s, k - 1);
        let c = carry_in(s, k - 1);
        assert(w[k] == s[k] + carry_in(s, k) - d * c);
        assert((a + c) * d == a * d + d * c) by (nonlinear_arith);
    } else {
        assert(odometer_value(w, 0) == 0 && odometer_value(s, 0) == 0);
    }
}

proof fn lemma_value_after_decrement(s: Seq<i16>, k: int)
    requires
        valid_params(s),
        s[1] - borrow_in(s, 1) >= i16::MIN,
        1 <= k <= divisor(s),
    ensures
        odometer_value(decremented(s), k) == odometer_value(s, k) - borrow_in(s, k),
    decreases k,
{
    let w = decremented(s);
    let d = divisor(s);
    assert(divisor(w) == d);
    if k > 1 {
        lemma_value_after_decrement(s, k - 1);
        assert(0 <= s[k] < d);
        let a = odometer_value(s, k - 1);
        let b = borrow_in(s, k - 1);
        assert(w[k] == s[k] - borrow_in(s, k) + d * b);
        assert((a - b) * d == a * d - d * b) by (nonlinear_arith);
    } else {
        assert(odometer_value(w, 0) == 0 && odometer_value(s, 0) == 0);
    }
}

/// Read as a number in base `d`, a valid vector goes up by exactly one on an
/// increment and down by exactly one on a decrement, wherever the step is
/// defined.
pub proof fn lemma_odometer_counts_by_one(s: Seq<i16>)
    requires
        valid_params(s),
    ensures
        s[1] + carry_in(s, 1) <= i16::MAX ==> odometer_value(incremented(s), divisor(s))
            == odometer_value(s, divisor(s)) + 1,
        s[1] - borrow_in(s, 1) >= i16::MIN ==> odometer_value(decremented(s), divisor(s))
            == odometer_value(s, divisor(s)) - 1,
{
    if s[1] + carry_in(s, 1) <= i16::MAX {
        lemma_value_after_increment(s, divisor(s));
    }
    if s[1] - borrow_in(s, 1) >= i16::MIN {
        lemma_value_after_decrement(s, divisor(s));
    }
}

} // verus!
