//! Exhaustive grid enumeration.
//!
//! [`run`] builds every combination of `count` points whose coordinates sweep
//! the closed range from -1 to 1, stepping each axis through every
//! representable single-precision value with
//! [`crate::float_bits::next_upper`], and hands each fully populated
//! configuration to a visitor — the consumer that solves it.  The sweep
//! visits one coordinate encoding per order key: zero is passed once, as the
//! sign-bit encoding the upward step reaches, never as the all-zero encoding
//! of the same value.

use vstd::prelude::*;
use vstd::arithmetic::power::{lemma_pow0, lemma_pow1, lemma_pow_adds, lemma_pow_positive, pow};
use crate::float_bits::{
    float_le, is_nan_bits, le, lemma_next_upper_increases, next_upper, order_key, POS_INF_BITS,
};
use crate::perm::Observer;
use crate::tour::Point;

verus! {

/// Bit encoding of -1.0, the lower end of the sweep.
pub const NEG_ONE_BITS: u32 = 0xbf80_0000;

/// Bit encoding of 1.0, the upper end of the sweep.
pub const ONE_BITS: u32 = 0x3f80_0000;

/// A coordinate encoding lying within the closed sweep range.
pub open spec fn in_sweep_range(b: u32) -> bool {
    &&& float_le(NEG_ONE_BITS, b)
    &&& float_le(b, ONE_BITS)
}

/// The number of values one axis sweeps: one per order key from -1.0's up to
/// 1.0's.
pub open spec fn sweep_size() -> int {
    order_key(ONE_BITS) - order_key(NEG_ONE_BITS) + 1
}

/// A coordinate encoding the sweep actually steps onto: in range, and not
/// the all-zero encoding — the upward step crosses zero through its sign-bit
/// encoding and never lands on the other encoding of the same value.
pub open spec fn swept_coord(b: u32) -> bool {
    &&& in_sweep_range(b)
    &&& b != 0
}

/// Each order key of the sweep belongs to exactly one swept encoding.
pub proof fn lemma_swept_coord_unique(a: u32, b: u32)
    requires
        swept_coord(a),
        swept_coord(b),
        order_key(a) == order_key(b),
    ensures
        a == b,
{
}

/// A configuration handed to the visitor: as long as the buffer, positions
/// from `count` on untouched, and every filled slot within range.
pub open spec fn grid_config(e: Seq<Point>, base: Seq<Point>, count: int) -> bool {
    &&& e.len() == base.len()
    &&& forall|j: int| count <= j < base.len() ==> e[j] == base[j]
    &&& forall|j: int|
        0 <= j < count ==> in_sweep_range(#[trigger] e[j].x) && in_sweep_range(e[j].y)
}

/// A configuration the sweep owes the visitor: positions from `count` on as
/// passed in, and every filled slot holding swept coordinates.
pub open spec fn swept_config(e: Seq<Point>, base: Seq<Point>, count: int) -> bool {
    &&& e.len() == base.len()
    &&& forall|j: int| count <= j < base.len() ==> e[j] == base[j]
    &&& forall|j: int| 0 <= j < count ==> swept_coord(#[trigger] e[j].x) && swept_coord(e[j].y)
}

/// A configuration of one more slot: what the recursion guarantees against
/// the buffer it saw, restated against the buffer of the enclosing level.
proof fn lemma_grid_config_lift(e: Seq<Point>, cur: Seq<Point>, base: Seq<Point>, count: int)
    requires
        1 <= count <= base.len(),
        cur.len() == base.len(),
        forall|j: int| count <= j < base.len() ==> cur[j] == base[j],
        in_sweep_range(cur[count - 1].x),
        in_sweep_range(cur[count - 1].y),
        grid_config(e, cur, count - 1),
    ensures
        grid_config(e, base, count),
{
    assert forall|j: int| count <= j < base.len() implies e[j] == base[j] by {
        assert(e[j] == cur[j]);
    }
    assert forall|j: int|
        0 <= j < count implies in_sweep_range(#[trigger] e[j].x) && in_sweep_range(e[j].y) by {
        if j == count - 1 {
            assert(e[j] == cur[j]);
        }
    }
}

/// Fills the first `count` slots of `positions` with every combination of
/// swept grid points: the visitor is called exactly once per combination —
/// `sweep_size()` to the power `2 * count` calls in all, every owed
/// combination among them — and every configuration it sees is in range.
/// With no slots to fill, the buffer itself is visited, exactly once, as
/// passed in.
pub fn run_inner<O: Observer<Point>>(count: usize, positions: &mut Vec<Point>, visitor: &mut O)
    requires
        count <= old(positions).len(),
    ensures
        final(positions)@.len() == old(positions)@.len(),
        forall|j: int|
            count <= j < old(positions)@.len() ==> final(positions)@[j] == old(positions)@[j],
        final(visitor).log().len() == old(visitor).log().len() + pow(
            sweep_size(),
            (2 * count) as nat,
        ),
        forall|i: int|
            0 <= i < old(visitor).log().len() ==> #[trigger] final(visitor).log()[i] == old(
                visitor,
            ).log()[i],
        forall|i: int|
            old(visitor).log().len() <= i < final(visitor).log().len() ==> grid_config(
                #[trigger] final(visitor).log()[i],
                old(positions)@,
                count as int,
            ),
        forall|e: Seq<Point>|
            #[trigger] swept_config(e, old(positions)@, count as int) ==> (exists|i: int|
                old(visitor).log().len() <= i < final(visitor).log().len()
                    && final(visitor).log()[i] == e),
        count == 0 ==> final(visitor).log() == old(visitor).log().push(old(positions)@),
    decreases count,
{
    let ghost p0 = positions@;
    let ghost l0 = visitor.log();
    if count == 0 {
        visitor.observe(&*positions);
        proof {
            lemma_pow0(sweep_size());
            assert(pow(sweep_size(), (2 * count) as nat) == 1);
            assert forall|e: Seq<Point>| #[trigger] swept_config(e, p0, 0) implies (exists|i: int|
                l0.len() <= i < visitor.log().len() && visitor.log()[i] == e) by {
                assert(e =~= p0);
                assert(visitor.log()[l0.len() as int] == e);
            }
        }
    } else {
        proof {
            lemma_pow_positive(sweep_size(), (2 * count - 1) as nat);
            lemma_pow_positive(sweep_size(), (2 * count - 2) as nat);
            // No swept coordinate has an order key below -1.0's.
            assert forall|e: Seq<Point>|
                #[trigger] swept_config(e, p0, count as int) implies order_key(NEG_ONE_BITS)
                <= order_key(e[count - 1].x) && order_key(NEG_ONE_BITS) <= order_key(
                e[count - 1].y,
            ) by {
                assert(swept_coord(e[count - 1].x) && swept_coord(e[count - 1].y));
            }
        }
        let mut x: u32 = NEG_ONE_BITS;
        let mut cont_x: bool = le(x, ONE_BITS);
        while cont_x
            invariant
                1 <= count <= p0.len(),
                positions@.len() == p0.len(),
                forall|j: int| count <= j < p0.len() ==> positions@[j] == p0[j],
                !is_nan_bits(x),
                float_le(NEG_ONE_BITS, x),
                x != 0,
                order_key(x) <= order_key(ONE_BITS) + 1,
                cont_x == float_le(x, ONE_BITS),
                visitor.log().len() >= l0.len(),
                visitor.log().len() == l0.len() + (order_key(x) - order_key(NEG_ONE_BITS)) * pow(
                    sweep_size(),
                    (2 * count - 1) as nat,
                ),
                forall|idx: int| 0 <= idx < l0.len() ==> #[trigger] visitor.log()[idx] == l0[idx],
                forall|idx: int|
                    l0.len() <= idx < visitor.log().len() ==> grid_config(
                        #[trigger] visitor.log()[idx],
                        p0,
                        count as int,
                    ),
                forall|e: Seq<Point>|
                    (#[trigger] swept_config(e, p0, count as int) && order_key(e[count - 1].x)
                        < order_key(x)) ==> (exists|ii: int|
                        l0.len() <= ii < visitor.log().len() && visitor.log()[ii] == e),
            decreases order_key(ONE_BITS) + 1 - order_key(x),
        {
            let ghost l_xs = visitor.log();
            proof {
                lemma_pow_positive(sweep_size(), (2 * count - 2) as nat);
                assert forall|e: Seq<Point>|
                    #[trigger] swept_config(e, p0, count as int) implies order_key(NEG_ONE_BITS)
                    <= order_key(e[count - 1].y) by {
                    assert(swept_coord(e[count - 1].y));
                }
            }
            let mut y: u32 = NEG_ONE_BITS;
            let mut cont_y: bool = le(y, ONE_BITS);
            while cont_y
                invariant
                    1 <= count <= p0.len(),
                    positions@.len() == p0.len(),
                    forall|j: int| count <= j < p0.len() ==> positions@[j] == p0[j],
                    !is_nan_bits(x),
                    in_sweep_range(x),
                    x != 0,
                    !is_nan_bits(y),
                    float_le(NEG_ONE_BITS, y),
                    y != 0,
                    order_key(y) <= order_key(ONE_BITS) + 1,
                    cont_y == float_le(y, ONE_BITS),
                    l0.len() <= l_xs.len(),
                    visitor.log().len() >= l_xs.len(),
                    visitor.log().len() == l_xs.len() + (order_key(y) - order_key(NEG_ONE_BITS))
                        * pow(sweep_size(), (2 * count - 2) as nat),
                    forall|idx: int|
                        0 <= idx < l0.len() ==> #[trigger] visitor.log()[idx] == l0[idx],
                    forall|idx: int|
                        l0.len() <= idx < visitor.log().len() ==> grid_config(
                            #[trigger] visitor.log()[idx],
                            p0,
                            count as int,
                        ),
                    forall|e: Seq<Point>|
                        (#[trigger] swept_config(e, p0, count as int) && (order_key(e[count - 1].x)
                            < order_key(x) || (e[count - 1].x == x && order_key(e[count - 1].y)
                            < order_key(y)))) ==> (exists|ii: int|
                            l0.len() <= ii < visitor.log().len() && visitor.log()[ii] == e),
                decreases order_key(ONE_BITS) + 1 - order_key(y),
            {
                let position = Point::new(x, y);
                positions[count - 1] = position;
                let ghost p_cur = positions@;
                let ghost l_cur = visitor.log();
                run_inner(count - 1, positions, visitor);
                proof {
                    assert forall|idx: int|
                        l0.len() <= idx < visitor.log().len() implies grid_config(
                        #[trigger] visitor.log()[idx],
                        p0,
                        count as int,
                    ) by {
                        if idx < l_cur.len() {
                            assert(grid_config(l_cur[idx], p0, count as int));
                            assert(visitor.log()[idx] == l_cur[idx]);
                        } else {
                            assert(grid_config(visitor.log()[idx], p_cur, count as int - 1));
                            assert(p_cur[count - 1] == position);
                            lemma_grid_config_lift(visitor.log()[idx], p_cur, p0, count as int);
                        }
                    }
                    // One more y value done: the log grew by one block.
                    let ghost py = pow(sweep_size(), (2 * count - 2) as nat);
                    let ghost ky = order_key(y) - order_key(NEG_ONE_BITS);
                    lemma_pow_positive(sweep_size(), (2 * count - 2) as nat);
                    assert(visitor.log().len() == l_cur.len() + py);
                    assert((ky + 1) * py == ky * py + py) by (nonlinear_arith);
                    assert((ky + 1) * py >= 0) by (nonlinear_arith)
                        requires
                            ky >= 0,
                            py >= 1,
                    ;
                    // Every configuration owed so far is in the log: the ones
                    // covered before this block are untouched, and the block
                    // just enumerated covers everything parking (x, y).
                    assert forall|e: Seq<Point>|
                        (#[trigger] swept_config(e, p0, count as int) && (order_key(
                            e[count - 1].x,
                        ) < order_key(x) || (e[count - 1].x == x && order_key(e[count - 1].y)
                            <= order_key(y)))) implies (exists|ii: int|
                        l0.len() <= ii < visitor.log().len() && visitor.log()[ii] == e) by {
                        let c = count as int;
                        if order_key(e[c - 1].x) < order_key(x) || (e[c - 1].x == x && order_key(
                            e[c - 1].y,
                        ) < order_key(y)) {
                            let ii = choose|ii: int|
                                l0.len() <= ii < l_cur.len() && l_cur[ii] == e;
                            assert(visitor.log()[ii] == l_cur[ii]);
                        } else {
                            assert(e[c - 1].x == x && order_key(e[c - 1].y) == order_key(y));
                            assert(swept_coord(e[c - 1].y));
                            lemma_swept_coord_unique(e[c - 1].y, y);
                            assert(e[c - 1] == p_cur[c - 1]);
                            assert forall|j: int|
                                c - 1 <= j < p_cur.len() implies e[j] == p_cur[j] by {
                                if j >= c {
                                    assert(e[j] == p0[j]);
                                    assert(p_cur[j] == p0[j]);
                                }
                            }
                            assert forall|j: int|
                                0 <= j < c - 1 implies swept_coord(#[trigger] e[j].x)
                                && swept_coord(e[j].y) by {
                                assert(swept_coord(e[j].x) && swept_coord(e[j].y));
                            }
                            assert(swept_config(e, p_cur, c - 1));
                            let ii = choose|ii: int|
                                l_cur.len() <= ii < visitor.log().len() && visitor.log()[ii] == e;
                            assert(l0.len() <= ii);
                        }
                    }
                }
                let ghost y_prev = y;
                y = next_upper(y);
                cont_y = le(y, ONE_BITS);
                proof {
                    assert(order_key(y_prev) < order_key(POS_INF_BITS));
                    lemma_next_upper_increases(y_prev);
                    assert(y != 0);
                }
            }
            proof {
                // The y sweep is complete: sweep_size() blocks, and every
                // configuration parking this x value is in the log.
                assert(order_key(y) == order_key(ONE_BITS) + 1);
                lemma_pow1(sweep_size());
                lemma_pow_adds(sweep_size(), 1, (2 * count - 2) as nat);
                lemma_pow_positive(sweep_size(), (2 * count - 1) as nat);
                assert(pow(sweep_size(), (2 * count - 1) as nat) == sweep_size() * pow(
                    sweep_size(),
                    (2 * count - 2) as nat,
                ));
                let ghost px = pow(sweep_size(), (2 * count - 1) as nat);
                let ghost kx = order_key(x) - order_key(NEG_ONE_BITS);
                assert((kx + 1) * px == kx * px + px) by (nonlinear_arith);
                assert((kx + 1) * px >= 0) by (nonlinear_arith)
                    requires
                        kx >= 0,
                        px >= 1,
                ;
            }
            let ghost x_prev = x;
            let ghost y_final = y;
            x = next_upper(x);
            cont_x = le(x, ONE_BITS);
            proof {
                assert(order_key(x_prev) < order_key(POS_INF_BITS));
                lemma_next_upper_increases(x_prev);
                assert(x != 0);
                assert forall|e: Seq<Point>|
                    (#[trigger] swept_config(e, p0, count as int) && order_key(e[count - 1].x)
                        < order_key(x)) implies (exists|ii: int|
                    l0.len() <= ii < visitor.log().len() && visitor.log()[ii] == e) by {
                    let c = count as int;
                    if order_key(e[c - 1].x) >= order_key(x_prev) {
                        assert(order_key(e[c - 1].x) == order_key(x_prev));
                        assert(swept_coord(e[c - 1].x));
                        lemma_swept_coord_unique(e[c - 1].x, x_prev);
                        assert(swept_coord(e[c - 1].y));
                        assert(order_key(e[c - 1].y) <= order_key(ONE_BITS));
                        assert(order_key(e[c - 1].y) < order_key(y_final));
                    }
                }
            }
        }
        proof {
            // The x sweep is complete: sweep_size() columns of the key range,
            // and every owed configuration has an x key below the final x.
            assert(order_key(x) == order_key(ONE_BITS) + 1);
            lemma_pow1(sweep_size());
            lemma_pow_adds(sweep_size(), 1, (2 * count - 1) as nat);
            assert(pow(sweep_size(), (2 * count) as nat) == sweep_size() * pow(
                sweep_size(),
                (2 * count - 1) as nat,
            ));
            assert forall|e: Seq<Point>|
                #[trigger] swept_config(e, p0, count as int) implies (exists|i: int|
                l0.len() <= i < visitor.log().len() && visitor.log()[i] == e) by {
                assert(swept_coord(e[count - 1].x));
                assert(order_key(e[count - 1].x) <= order_key(ONE_BITS));
            }
        }
    }
}

/// A complete swept configuration of `count` points: every slot filled with
/// swept coordinates.
pub open spec fn full_sweep_config(e: Seq<Point>, count: int) -> bool {
    &&& e.len() == count
    &&& forall|j: int| 0 <= j < count ==> swept_coord(#[trigger] e[j].x) && swept_coord(e[j].y)
}

/// Sweeps every configuration of `count` grid points and visits each one:
/// exactly `sweep_size()` to the power `2 * count` visits, every complete
/// swept configuration among them, and every visited configuration has
/// exactly `count` points within the closed range from -1 to 1.
pub fn run<O: Observer<Point>>(count: usize, visitor: &mut O)
    ensures
        final(visitor).log().len() == old(visitor).log().len() + pow(
            sweep_size(),
            (2 * count) as nat,
        ),
        forall|i: int|
            0 <= i < old(visitor).log().len() ==> #[trigger] final(visitor).log()[i] == old(
                visitor,
            ).log()[i],
        forall|i: int|
            old(visitor).log().len() <= i < final(visitor).log().len() ==> (
            #[trigger] final(visitor).log()[i]).len() == count && (forall|j: int|
                0 <= j < count ==> in_sweep_range(#[trigger] final(visitor).log()[i][j].x)
                    && in_sweep_range(final(visitor).log()[i][j].y)),
        forall|e: Seq<Point>|
            #[trigger] full_sweep_config(e, count as int) ==> (exists|i: int|
                old(visitor).log().len() <= i < final(visitor).log().len()
                    && final(visitor).log()[i] == e),
{
    let mut positions: Vec<Point> = Vec::new();
    let mut i: usize = 0;
    while i < count
        invariant
            i <= count,
            positions@.len() == i,
        decreases count - i,
    {
        positions.push(Point::new(0, 0));
        i = i + 1;
    }
    let ghost p_init = positions@;
    run_inner(count, &mut positions, visitor);
    proof {
        assert forall|e: Seq<Point>| #[trigger] full_sweep_config(e, count as int) implies (
        exists|i: int|
            old(visitor).log().len() <= i < visitor.log().len() && visitor.log()[i] == e) by {
            assert(swept_config(e, p_init, count as int));
        }
    }
}

} // verus!
