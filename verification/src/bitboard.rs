//! Bit-board primitives for the 11×11 board.
//!
//! Square `(x, y)` is bit `x + 11 * y` of a `u128`. A set of squares is the
//! union of their bits, so occupancy tests are single `&` operations and the
//! four orthogonal steps are shifts guarded against wrapping round a row end.

use vstd::prelude::*;

verus! {

/// Number of columns of the board.
pub const WIDTH: u32 = 11;

/// Number of rows of the board.
pub const HEIGHT: u32 = 11;

/// Every square of the board: the low 121 bits.
pub const UNIVERSE: u128 = 0x01ff_ffff_ffff_ffff_ffff_ffff_ffff_ffff;

/// The squares with `x == 0`.
pub const LEFT_COLUMN: u128 = 0x4008010020040080100200400801;

/// The squares with `x == 10`.
pub const RIGHT_COLUMN: u128 = 0x1002004008010020040080100200400;

/// `m` holds exactly one square of the board.
pub open spec fn is_square(m: u128) -> bool {
    m != 0 && m & ((m - 1) as u128) == 0 && m & !UNIVERSE == 0
}

/// `m` holds only squares of the board.
pub open spec fn on_board(m: u128) -> bool {
    m & !UNIVERSE == 0
}

/// The mask of the square with bit index `i`.
pub open spec fn square_at(i: u32) -> u128 {
    1u128 << i
}

/// The squares one row below those of `m` (`y - 1`).
pub open spec fn shift_down(m: u128) -> u128 {
    m >> 11
}

/// The squares one column left of those of `m` (`x - 1`), none wrapping into
/// the row below.
pub open spec fn shift_left(m: u128) -> u128 {
    (m >> 1) & !RIGHT_COLUMN
}

/// The squares one column right of those of `m` (`x + 1`), none wrapping into
/// the row above.
pub open spec fn shift_right(m: u128) -> u128 {
    ((m << 1) & UNIVERSE) & !LEFT_COLUMN
}

/// The squares one row above those of `m` (`y + 1`), none leaving the board.
pub open spec fn shift_up(m: u128) -> u128 {
    (m << 11) & UNIVERSE
}

/// The orthogonal neighbours of the squares of `m`.
pub open spec fn neighbours(m: u128) -> u128 {
    shift_down(m) | shift_left(m) | shift_right(m) | shift_up(m)
}

/// The union of the masks of `s`.
pub open spec fn union_of(s: Seq<u128>) -> u128
    decreases s.len(),
{
    if s.len() == 0 {
        0
    } else {
        union_of(s.drop_last()) | s.last()
    }
}

/// Equal masks of `s` stand next to each other: a square that occurs twice
/// occurs as one run.
pub open spec fn in_runs(s: Seq<u128>) -> bool {
    forall|i: int, j: int|
        #![trigger s[i], s[j]]
        0 <= i < j < s.len() && s[i] == s[j] ==> s[j - 1] == s[j]
}

/// Every mask of `s` is one square of the board.
pub open spec fn all_squares(s: Seq<u128>) -> bool {
    forall|i: int| 0 <= i < s.len() ==> is_square(#[trigger] s[i])
}

/// The mask of square `(x, y)`.
pub fn square_mask(x: u32, y: u32) -> (m: u128)
    requires
        x < WIDTH,
        y < HEIGHT,
    ensures
        m == square_at((x + 11 * y) as u32),
        is_square(m),
{
    let i: u32 = x + 11 * y;
    assert(is_square(1u128 << i)) by (bit_vector)
        requires
            i < 121,
    ;
    1u128 << i
}

/// The mask one row below `m`.
pub fn step_down(m: u128) -> (r: u128)
    ensures
        r == shift_down(m),
{
    m >> 11
}

/// The mask one column left of `m`.
pub fn step_left(m: u128) -> (r: u128)
    ensures
        r == shift_left(m),
{
    (m >> 1) & !RIGHT_COLUMN
}

/// The mask one column right of `m`.
pub fn step_right(m: u128) -> (r: u128)
    ensures
        r == shift_right(m),
{
    ((m << 1) & UNIVERSE) & !LEFT_COLUMN
}

/// The mask one row above `m`.
pub fn step_up(m: u128) -> (r: u128)
    ensures
        r == shift_up(m),
{
    (m << 11) & UNIVERSE
}

/// A step from one square leads to one square or off the board.
pub proof fn lemma_shift_square(m: u128)
    by (bit_vector)
    requires
        is_square(m),
    ensures
        shift_down(m) == 0 || is_square(shift_down(m)),
        shift_left(m) == 0 || is_square(shift_left(m)),
        shift_right(m) == 0 || is_square(shift_right(m)),
        shift_up(m) == 0 || is_square(shift_up(m)),
{
}

/// The four neighbours of a square, where they exist, ascend in bit index:
/// down, left, right, up.
pub proof fn lemma_shift_order(m: u128)
    by (bit_vector)
    requires
        is_square(m),
    ensures
        shift_left(m) != 0 ==> shift_down(m) < shift_left(m),
        shift_right(m) != 0 ==> shift_left(m) < shift_right(m) && shift_down(m) < shift_right(m),
        shift_up(m) != 0 ==> shift_right(m) < shift_up(m) && shift_left(m) < shift_up(m)
            && shift_down(m) < shift_up(m),
{
}

/// Two different squares share no bit.
pub proof fn lemma_squares_disjoint(a: u128, b: u128)
    by (bit_vector)
    requires
        is_square(a),
        is_square(b),
        a != b,
    ensures
        a & b == 0,
{
}

/// A square that is none of the masks of `s`, all squares, lies outside
/// their union.
pub proof fn lemma_union_misses(s: Seq<u128>, x: u128)
    requires
        all_squares(s),
        is_square(x),
        forall|i: int| 0 <= i < s.len() ==> s[i] != x,
    ensures
        x & union_of(s) == 0,
    decreases s.len(),
{
    if s.len() == 0 {
        assert(x & 0u128 == 0) by (bit_vector);
    } else {
        let rest = s.drop_last();
        lemma_union_misses(rest, x);
        lemma_squares_disjoint(x, s.last());
        let u = union_of(rest);
        let l = s.last();
        assert(x & (u | l) == 0) by (bit_vector)
            requires
                x & u == 0,
                x & l == 0,
        ;
    }
}

/// A square outside a union of masks is none of them.
pub proof fn lemma_union_excludes(s: Seq<u128>, x: u128)
    requires
        is_square(x),
        x & union_of(s) == 0,
    ensures
        forall|i: int| 0 <= i < s.len() ==> s[i] != x,
    decreases s.len(),
{
    if s.len() > 0 {
        let rest = s.drop_last();
        let u = union_of(rest);
        let l = s.last();
        assert(x & u == 0 && l != x) by (bit_vector)
            requires
                x & (u | l) == 0,
                x != 0,
        ;
        lemma_union_excludes(rest, x);
        assert forall|i: int| 0 <= i < s.len() implies s[i] != x by {
            if i < s.len() - 1 {
                assert(rest[i] == s[i]);
            }
        }
    }
}

/// A union of masks holds each of them.
pub proof fn lemma_union_holds(s: Seq<u128>, i: int)
    requires
        0 <= i < s.len(),
    ensures
        s[i] & union_of(s) == s[i],
    decreases s.len(),
{
    let rest = s.drop_last();
    let u = union_of(rest);
    let l = s.last();
    let x = s[i];
    if i == s.len() - 1 {
        assert(l & (u | l) == l) by (bit_vector);
    } else {
        lemma_union_holds(rest, i);
        assert(x & (u | l) == x) by (bit_vector)
            requires
                x & u == x,
        ;
    }
}

/// A union of on-board masks stays on the board.
pub proof fn lemma_union_on_board(s: Seq<u128>)
    requires
        all_squares(s),
    ensures
        on_board(union_of(s)),
    decreases s.len(),
{
    if s.len() == 0 {
        assert(0u128 & !UNIVERSE == 0) by (bit_vector);
    } else {
        let rest = s.drop_last();
        lemma_union_on_board(rest);
        let u = union_of(rest);
        let l = s.last();
        assert((u | l) & !UNIVERSE == 0) by (bit_vector)
            requires
                u & !UNIVERSE == 0,
                l & !UNIVERSE == 0,
        ;
    }
}

} // verus!
