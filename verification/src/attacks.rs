use vstd::prelude::*;
use crate::bitboard::{bit, group_bit_lemmas, is_square, file_of, rank_of, Bitboard};
use vstd::arithmetic::div_mod::lemma_fundamental_div_mod;

verus! {

broadcast use group_bit_lemmas;

/// The eight directions a sliding piece moves in.
#[derive(Clone, Copy, PartialEq, Eq, Structural)]
pub enum Direction {
    North,
    South,
    East,
    West,
    NorthEast,
    NorthWest,
    SouthEast,
    SouthWest,
}

/// Whether square `t` lies on the ray from `s` in direction `d` (`s`
/// excluded).
pub open spec fn on_ray(d: Direction, s: int, t: int) -> bool {
    let dr = rank_of(t) - rank_of(s);
    let df = file_of(t) - file_of(s);
    &&& is_square(s)
    &&& is_square(t)
    &&& match d {
        Direction::North => df == 0 && dr > 0,
        Direction::South => df == 0 && dr < 0,
        Direction::East => dr == 0 && df > 0,
        Direction::West => dr == 0 && df < 0,
        Direction::NorthEast => dr == df && dr > 0,
        Direction::NorthWest => dr == -df && dr > 0,
        Direction::SouthEast => dr == -df && dr < 0,
        Direction::SouthWest => dr == df && dr < 0,
    }
}

/// Whether square indices grow along direction `d`.
pub open spec fn ascending(d: Direction) -> bool {
    match d {
        Direction::North | Direction::East | Direction::NorthEast | Direction::NorthWest => true,
        _ => false,
    }
}

/// Whether `u` comes before `t` when walking along direction `d`.
pub open spec fn before(d: Direction, u: int, t: int) -> bool {
    if ascending(d) {
        u < t
    } else {
        u > t
    }
}

/// Whether a piece sliding from `s` in direction `d` reaches `t`: `t` is on
/// the ray and no occupied square comes before it.
pub open spec fn slides_to(d: Direction, s: int, occupancy: u64, t: int) -> bool {
    &&& on_ray(d, s, t)
    &&& forall|u: int| #![trigger bit(occupancy, u as u64)]
        on_ray(d, s, u) && before(d, u, t) ==> !bit(occupancy, u as u64)
}

/// The squares a bishop on `s` attacks through the given occupancy.
pub open spec fn bishop_reaches(s: int, occupancy: u64, t: int) -> bool {
    ||| slides_to(Direction::NorthEast, s, occupancy, t)
    ||| slides_to(Direction::NorthWest, s, occupancy, t)
    ||| slides_to(Direction::SouthEast, s, occupancy, t)
    ||| slides_to(Direction::SouthWest, s, occupancy, t)
}

/// The squares a rook on `s` attacks through the given occupancy.
pub open spec fn rook_reaches(s: int, occupancy: u64, t: int) -> bool {
    ||| slides_to(Direction::North, s, occupancy, t)
    ||| slides_to(Direction::South, s, occupancy, t)
    ||| slides_to(Direction::East, s, occupancy, t)
    ||| slides_to(Direction::West, s, occupancy, t)
}

/// A knight's move from `s` to `t`.
pub open spec fn knight_step(s: int, t: int) -> bool {
    let dr = rank_of(t) - rank_of(s);
    let df = file_of(t) - file_of(s);
    &&& is_square(s)
    &&& is_square(t)
    &&& ((dr == 1 || dr == -1) && (df == 2 || df == -2) || (dr == 2 || dr == -2) && (df == 1 || df == -1))
}

/// A king's move from `s` to `t`.
pub open spec fn king_step(s: int, t: int) -> bool {
    let dr = rank_of(t) - rank_of(s);
    let df = file_of(t) - file_of(s);
    &&& is_square(s)
    &&& is_square(t)
    &&& -1 <= dr <= 1
    &&& -1 <= df <= 1
    &&& s != t
}

/// The forward rank step of a pawn of color index `c`: +1 for white, -1 for
/// black.
pub open spec fn pawn_dir(c: int) -> int {
    if c == 0 {
        1
    } else {
        -1
    }
}

/// A pawn of color index `c` on `s` attacks `t` diagonally forward.
pub open spec fn pawn_attack(c: int, s: int, t: int) -> bool {
    let dr = rank_of(t) - rank_of(s);
    let df = file_of(t) - file_of(s);
    &&& is_square(s)
    &&& is_square(t)
    &&& dr == pawn_dir(c)
    &&& (df == 1 || df == -1)
}

/// A pawn of color index `c` on `s` steps forward to `t`.
pub open spec fn pawn_push(c: int, s: int, t: int) -> bool {
    &&& is_square(s)
    &&& is_square(t)
    &&& t == s + 8 * pawn_dir(c)
}

/// A pawn of color index `c` on its starting rank jumps two ranks to `t`.
pub open spec fn pawn_double(c: int, s: int, t: int) -> bool {
    &&& is_square(s)
    &&& is_square(t)
    &&& rank_of(s) == if c == 0 { 1int } else { 6 }
    &&& t == s + 16 * pawn_dir(c)
}

/// A square is eight times its rank plus its file.
pub proof fn lemma_coords(t: int)
    ensures
        t == 8 * rank_of(t) + file_of(t),
        0 <= file_of(t) < 8,
{
    lemma_fundamental_div_mod(t, 8);
}

// -------------------------------------------------------------------------
// Rays

/// The squares north of `square`, `square` excluded.
pub fn north_ray(square: usize) -> (r: Bitboard)
    requires
        square < 64,
    ensures
        forall|t: int| #[trigger] r.has(t) == on_ray(Direction::North, square as int, t),
{
    let rank = square / 8;
    let mut ray = Bitboard(0);
    let mut distance: usize = 1;
    while rank + distance < 8
        invariant
            square < 64,
            rank == square / 8,
            1 <= distance <= 8 - rank,
            forall|t: int| #[trigger] ray.has(t) == (on_ray(Direction::North, square as int, t) && rank_of(t) - rank < distance),
        decreases 8 - distance,
    {
        let ghost prev = ray;
        let target = square + distance * 8;
        ray.set(target);
        proof {
            assert forall|t: int| #[trigger] ray.has(t) == (on_ray(Direction::North, square as int, t) && rank_of(t) - rank < distance + 1) by {
                lemma_coords(t);
                lemma_coords(square as int);
                lemma_coords(target as int);
                assert(ray@ == prev@.insert(target as int));
                assert(ray.has(t) == (prev.has(t) || t == target));
            }
        }
        distance += 1;
    }
    ray
}

/// The squares south of `square`, `square` excluded.
pub fn south_ray(square: usize) -> (r: Bitboard)
    requires
        square < 64,
    ensures
        forall|t: int| #[trigger] r.has(t) == on_ray(Direction::South, square as int, t),
{
    let rank = square / 8;
    let mut ray = Bitboard(0);
    let mut distance: usize = 1;
    while distance <= rank
        invariant
            square < 64,
            rank == square / 8,
            1 <= distance <= rank + 1,
            forall|t: int| #[trigger] ray.has(t) == (on_ray(Direction::South, square as int, t) && rank - rank_of(t) < distance),
        decreases rank + 1 - distance,
    {
        let ghost prev = ray;
        let target = square - distance * 8;
        ray.set(target);
        proof {
            assert forall|t: int| #[trigger] ray.has(t) == (on_ray(Direction::South, square as int, t) && rank - rank_of(t) < distance + 1) by {
                lemma_coords(t);
                lemma_coords(square as int);
                lemma_coords(target as int);
                assert(ray@ == prev@.insert(target as int));
                assert(ray.has(t) == (prev.has(t) || t == target));
            }
        }
        distance += 1;
    }
    ray
}

/// The squares east of `square`, `square` excluded.
pub fn east_ray(square: usize) -> (r: Bitboard)
    requires
        square < 64,
    ensures
        forall|t: int| #[trigger] r.has(t) == on_ray(Direction::East, square as int, t),
{
    let file = square % 8;
    let mut ray = Bitboard(0);
    let mut distance: usize = 1;
    while file + distance < 8
        invariant
            square < 64,
            file == square % 8,
            1 <= distance <= 8 - file,
            forall|t: int| #[trigger] ray.has(t) == (on_ray(Direction::East, square as int, t) && file_of(t) - file < distance),
        decreases 8 - distance,
    {
        let ghost prev = ray;
        let target = square + distance;
        ray.set(target);
        proof {
            assert forall|t: int| #[trigger] ray.has(t) == (on_ray(Direction::East, square as int, t) && file_of(t) - file < distance + 1) by {
                lemma_coords(t);
                lemma_coords(square as int);
                lemma_coords(target as int);
                assert(ray@ == prev@.insert(target as int));
                assert(ray.has(t) == (prev.has(t) || t == target));
            }
        }
        distance += 1;
    }
    ray
}

/// The squares west of `square`, `square` excluded.
pub fn west_ray(square: usize) -> (r: Bitboard)
    requires
        square < 64,
    ensures
        forall|t: int| #[trigger] r.has(t) == on_ray(Direction::West, square as int, t),
{
    let file = square % 8;
    let mut ray = Bitboard(0);
    let mut distance: usize = 1;
    while distance <= file
        invariant
            square < 64,
            file == square % 8,
            1 <= distance <= file + 1,
            forall|t: int| #[trigger] ray.has(t) == (on_ray(Direction::West, square as int, t) && file - file_of(t) < distance),
        decreases file + 1 - distance,
    {
        let ghost prev = ray;
        let target = square - distance;
        ray.set(target);
        proof {
            assert forall|t: int| #[trigger] ray.has(t) == (on_ray(Direction::West, square as int, t) && file - file_of(t) < distance + 1) by {
                lemma_coords(t);
                lemma_coords(square as int);
                lemma_coords(target as int);
                assert(ray@ == prev@.insert(target as int));
                assert(ray.has(t) == (prev.has(t) || t == target));
            }
        }
        distance += 1;
    }
    ray
}

/// The squares north-east of `square`, `square` excluded.
pub fn northeast_ray(square: usize) -> (r: Bitboard)
    requires
        square < 64,
    ensures
        forall|t: int| #[trigger] r.has(t) == on_ray(Direction::NorthEast, square as int, t),
{
    let rank = square / 8;
    let file = square % 8;
    let mut ray = Bitboard(0);
    let mut distance: usize = 1;
    while rank + distance < 8 && file + distance < 8
        invariant
            square < 64,
            rank == square / 8,
            file == square % 8,
            1 <= distance <= 8,
            forall|t: int| #[trigger] ray.has(t) == (on_ray(Direction::NorthEast, square as int, t) && rank_of(t) - rank < distance),
        decreases 8 - distance,
    {
        let ghost prev = ray;
        let target = square + distance * 9;
        ray.set(target);
        proof {
            assert forall|t: int| #[trigger] ray.has(t) == (on_ray(Direction::NorthEast, square as int, t) && rank_of(t) - rank < distance + 1) by {
                lemma_coords(t);
                lemma_coords(square as int);
                lemma_coords(target as int);
                assert(ray@ == prev@.insert(target as int));
                assert(ray.has(t) == (prev.has(t) || t == target));
            }
        }
        distance += 1;
    }
    ray
}

/// The squares north-west of `square`, `square` excluded.
pub fn northwest_ray(square: usize) -> (r: Bitboard)
    requires
        square < 64,
    ensures
        forall|t: int| #[trigger] r.has(t) == on_ray(Direction::NorthWest, square as int, t),
{
    let rank = square / 8;
    let file = square % 8;
    let mut ray = Bitboard(0);
    let mut distance: usize = 1;
    while rank + distance < 8 && distance <= file
        invariant
            square < 64,
            rank == square / 8,
            file == square % 8,
            1 <= distance <= 8,
            forall|t: int| #[trigger] ray.has(t) == (on_ray(Direction::NorthWest, square as int, t) && rank_of(t) - rank < distance),
        decreases 8 - distance,
    {
        let ghost prev = ray;
        let target = square + distance * 7;
        ray.set(target);
        proof {
            assert forall|t: int| #[trigger] ray.has(t) == (on_ray(Direction::NorthWest, square as int, t) && rank_of(t) - rank < distance + 1) by {
                lemma_coords(t);
                lemma_coords(square as int);
                lemma_coords(target as int);
                assert(ray@ == prev@.insert(target as int));
                assert(ray.has(t) == (prev.has(t) || t == target));
            }
        }
        distance += 1;
    }
    ray
}

/// The squares south-east of `square`, `square` excluded.
pub fn southeast_ray(square: usize) -> (r: Bitboard)
    requires
        square < 64,
    ensures
        forall|t: int| #[trigger] r.has(t) == on_ray(Direction::SouthEast, square as int, t),
{
    let rank = square / 8;
    let file = square % 8;
    let mut ray = Bitboard(0);
    let mut distance: usize = 1;
    while distance <= rank && file + distance < 8
        invariant
            square < 64,
            rank == square / 8,
            file == square % 8,
            1 <= distance <= 8,
            forall|t: int| #[trigger] ray.has(t) == (on_ray(Direction::SouthEast, square as int, t) && rank - rank_of(t) < distance),
        decreases 8 - distance,
    {
        let ghost prev = ray;
        let target = square - distance * 7;
        ray.set(target);
        proof {
            assert forall|t: int| #[trigger] ray.has(t) == (on_ray(Direction::SouthEast, square as int, t) && rank - rank_of(t) < distance + 1) by {
                lemma_coords(t);
                lemma_coords(square as int);
                lemma_coords(target as int);
                assert(ray@ == prev@.insert(target as int));
                assert(ray.has(t) == (prev.has(t) || t == target));
            }
        }
        distance += 1;
    }
    ray
}

/// The squares south-west of `square`, `square` excluded.
pub fn southwest_ray(square: usize) -> (r: Bitboard)
    requires
        square < 64,
    ensures
        forall|t: int| #[trigger] r.has(t) == on_ray(Direction::SouthWest, square as int, t),
{
    let rank = square / 8;
    let file = square % 8;
    let mut ray = Bitboard(0);
    let mut distance: usize = 1;
    while distance <= rank && distance <= file
        invariant
            square < 64,
            rank == square / 8,
            file == square % 8,
            1 <= distance <= 8,
            forall|t: int| #[trigger] ray.has(t) == (on_ray(Direction::SouthWest, square as int, t) && rank - rank_of(t) < distance),
        decreases 8 - distance,
    {
        let ghost prev = ray;
        let target = square - distance * 9;
        ray.set(target);
        proof {
            assert forall|t: int| #[trigger] ray.has(t) == (on_ray(Direction::SouthWest, square as int, t) && rank - rank_of(t) < distance + 1) by {
                lemma_coords(t);
                lemma_coords(square as int);
                lemma_coords(target as int);
                assert(ray@ == prev@.insert(target as int));
                assert(ray.has(t) == (prev.has(t) || t == target));
            }
        }
        distance += 1;
    }
    ray
}

} // verus!

verus! {

/// Along a ray, a later square lies on the ray from an earlier one exactly
/// when it comes after it.
pub proof fn lemma_ray_order(d: Direction, s: int, b: int, t: int)
    requires
        on_ray(d, s, b),
        on_ray(d, s, t),
    ensures
        on_ray(d, b, t) == before(d, b, t),
{
    lemma_coords(s);
    lemma_coords(b);
    lemma_coords(t);
}

/// With a first blocker `b` on the ray, a slider reaches the ray's squares up
/// to and including `b`.
pub proof fn lemma_slide_blocked(d: Direction, s: int, occupancy: u64, b: int)
    requires
        on_ray(d, s, b),
        bit(occupancy, b as u64),
        forall|u: int| on_ray(d, s, u) && before(d, u, b) ==> !bit(occupancy, u as u64),
    ensures
        forall|t: int| #[trigger] slides_to(d, s, occupancy, t) == (on_ray(d, s, t) && !on_ray(d, b, t)),
{
    assert forall|t: int| #[trigger] slides_to(d, s, occupancy, t) == (on_ray(d, s, t) && !on_ray(d, b, t)) by {
        if on_ray(d, s, t) {
            lemma_ray_order(d, s, b, t);
            if on_ray(d, b, t) {
                assert(on_ray(d, s, b) && before(d, b, t));
                assert(bit(occupancy, b as u64));
            } else {
                assert forall|u: int| #![trigger bit(occupancy, u as u64)]
                    on_ray(d, s, u) && before(d, u, t) implies !bit(occupancy, u as u64) by {
                    lemma_coords(u);
                    lemma_coords(t);
                    lemma_coords(b);
                    lemma_coords(s);
                }
            }
        }
    }
}

/// With no blocker on the ray, a slider reaches the whole ray.
pub proof fn lemma_slide_free(d: Direction, s: int, occupancy: u64)
    requires
        forall|u: int| on_ray(d, s, u) ==> !bit(occupancy, u as u64),
    ensures
        forall|t: int| #[trigger] slides_to(d, s, occupancy, t) == on_ray(d, s, t),
{
}


/// The squares attacked from `square` towards the north-east, up to and
/// including the first occupied square.
pub fn northeast_sliding_attacks(square: usize, occupancy: Bitboard) -> (r: Bitboard)
    requires
        square < 64,
    ensures
        forall|t: int| #[trigger] r.has(t) == slides_to(Direction::NorthEast, square as int, occupancy.0, t),
{
    let ray = northeast_ray(square);
    let both = ray.and(occupancy);
    match both.lsb_index() {
        Some(blocking_index) => {
            let blocked = northeast_ray(blocking_index);
            proof {
                assert forall|u: int| on_ray(Direction::NorthEast, square as int, u) && before(Direction::NorthEast, u, blocking_index as int) implies !bit(occupancy.0, u as u64) by {
                    assert(ray.has(u));
                    assert(both@.contains(u) == (ray@.contains(u) && occupancy@.contains(u)));
                    assert(!both.has(u));
                }
                assert(both.has(blocking_index as int));
                assert(both@.contains(blocking_index as int) == (ray@.contains(blocking_index as int)
                    && occupancy@.contains(blocking_index as int)));
                assert(ray.has(blocking_index as int));
                lemma_slide_blocked(Direction::NorthEast, square as int, occupancy.0, blocking_index as int);
            }
            let r = ray.without(blocked);
            proof {
                assert forall|t: int| #[trigger] r.has(t) == (ray.has(t) && !blocked.has(t)) by {
                    assert(r@.contains(t) == (ray@.contains(t) && !blocked@.contains(t)));
                }
            }
            r
        },
        None => {
            proof {
                assert forall|u: int| on_ray(Direction::NorthEast, square as int, u) implies !bit(occupancy.0, u as u64) by {
                    assert(ray.has(u));
                    assert(both@.contains(u) == (ray@.contains(u) && occupancy@.contains(u)));
                    assert(!both.has(u));
                }
                lemma_slide_free(Direction::NorthEast, square as int, occupancy.0);
            }
            ray
        },
    }
}

/// The squares attacked from `square` towards the north-west, up to and
/// including the first occupied square.
pub fn northwest_sliding_attacks(square: usize, occupancy: Bitboard) -> (r: Bitboard)
    requires
        square < 64,
    ensures
        forall|t: int| #[trigger] r.has(t) == slides_to(Direction::NorthWest, square as int, occupancy.0, t),
{
    let ray = northwest_ray(square);
    let both = ray.and(occupancy);
    match both.lsb_index() {
        Some(blocking_index) => {
            let blocked = northwest_ray(blocking_index);
            proof {
                assert forall|u: int| on_ray(Direction::NorthWest, square as int, u) && before(Direction::NorthWest, u, blocking_index as int) implies !bit(occupancy.0, u as u64) by {
                    assert(ray.has(u));
                    assert(both@.contains(u) == (ray@.contains(u) && occupancy@.contains(u)));
                    assert(!both.has(u));
                }
                assert(both.has(blocking_index as int));
                assert(both@.contains(blocking_index as int) == (ray@.contains(blocking_index as int)
                    && occupancy@.contains(blocking_index as int)));
                assert(ray.has(blocking_index as int));
                lemma_slide_blocked(Direction::NorthWest, square as int, occupancy.0, blocking_index as int);
            }
            let r = ray.without(blocked);
            proof {
                assert forall|t: int| #[trigger] r.has(t) == (ray.has(t) && !blocked.has(t)) by {
                    assert(r@.contains(t) == (ray@.contains(t) && !blocked@.contains(t)));
                }
            }
            r
        },
        None => {
            proof {
                assert forall|u: int| on_ray(Direction::NorthWest, square as int, u) implies !bit(occupancy.0, u as u64) by {
                    assert(ray.has(u));
                    assert(both@.contains(u) == (ray@.contains(u) && occupancy@.contains(u)));
                    assert(!both.has(u));
                }
                lemma_slide_free(Direction::NorthWest, square as int, occupancy.0);
            }
            ray
        },
    }
}

/// The squares attacked from `square` towards the south-east, up to and
/// including the first occupied square.
pub fn southeast_sliding_attacks(square: usize, occupancy: Bitboard) -> (r: Bitboard)
    requires
        square < 64,
    ensures
        forall|t: int| #[trigger] r.has(t) == slides_to(Direction::SouthEast, square as int, occupancy.0, t),
{
    let ray = southeast_ray(square);
    let both = ray.and(occupancy);
    match both.msb_index() {
        Some(blocking_index) => {
            let blocked = southeast_ray(blocking_index);
            proof {
                assert forall|u: int| on_ray(Direction::SouthEast, square as int, u) && before(Direction::SouthEast, u, blocking_index as int) implies !bit(occupancy.0, u as u64) by {
                    assert(ray.has(u));
                    assert(both@.contains(u) == (ray@.contains(u) && occupancy@.contains(u)));
                    assert(!both.has(u));
                }
                assert(both.has(blocking_index as int));
                assert(both@.contains(blocking_index as int) == (ray@.contains(blocking_index as int)
                    && occupancy@.contains(blocking_index as int)));
                assert(ray.has(blocking_index as int));
                lemma_slide_blocked(Direction::SouthEast, square as int, occupancy.0, blocking_index as int);
            }
            let r = ray.without(blocked);
            proof {
                assert forall|t: int| #[trigger] r.has(t) == (ray.has(t) && !blocked.has(t)) by {
                    assert(r@.contains(t) == (ray@.contains(t) && !blocked@.contains(t)));
                }
            }
            r
        },
        None => {
            proof {
                assert forall|u: int| on_ray(Direction::SouthEast, square as int, u) implies !bit(occupancy.0, u as u64) by {
                    assert(ray.has(u));
                    assert(both@.contains(u) == (ray@.contains(u) && occupancy@.contains(u)));
                    assert(!both.has(u));
                }
                lemma_slide_free(Direction::SouthEast, square as int, occupancy.0);
            }
            ray
        },
    }
}

/// The squares attacked from `square` towards the south-west, up to and
/// including the first occupied square.
pub fn southwest_sliding_attacks(square: usize, occupancy: Bitboard) -> (r: Bitboard)
    requires
        square < 64,
    ensures
        forall|t: int| #[trigger] r.has(t) == slides_to(Direction::SouthWest, square as int, occupancy.0, t),
{
    let ray = southwest_ray(square);
    let both = ray.and(occupancy);
    match both.msb_index() {
        Some(blocking_index) => {
            let blocked = southwest_ray(blocking_index);
            proof {
                assert forall|u: int| on_ray(Direction::SouthWest, square as int, u) && before(Direction::SouthWest, u, blocking_index as int) implies !bit(occupancy.0, u as u64) by {
                    assert(ray.has(u));
                    assert(both@.contains(u) == (ray@.contains(u) && occupancy@.contains(u)));
                    assert(!both.has(u));
                }
                assert(both.has(blocking_index as int));
                assert(both@.contains(blocking_index as int) == (ray@.contains(blocking_index as int)
                    && occupancy@.contains(blocking_index as int)));
                assert(ray.has(blocking_index as int));
                lemma_slide_blocked(Direction::SouthWest, square as int, occupancy.0, blocking_index as int);
            }
            let r = ray.without(blocked);
            proof {
                assert forall|t: int| #[trigger] r.has(t) == (ray.has(t) && !blocked.has(t)) by {
                    assert(r@.contains(t) == (ray@.contains(t) && !blocked@.contains(t)));
                }
            }
            r
        },
        None => {
            proof {
                assert forall|u: int| on_ray(Direction::SouthWest, square as int, u) implies !bit(occupancy.0, u as u64) by {
                    assert(ray.has(u));
                    assert(both@.contains(u) == (ray@.contains(u) && occupancy@.contains(u)));
                    assert(!both.has(u));
                }
                lemma_slide_free(Direction::SouthWest, square as int, occupancy.0);
            }
            ray
        },
    }
}

/// The squares attacked from `square` towards the north, up to and
/// including the first occupied square.
pub fn north_sliding_attacks(square: usize, occupancy: Bitboard) -> (r: Bitboard)
    requires
        square < 64,
    ensures
        forall|t: int| #[trigger] r.has(t) == slides_to(Direction::North, square as int, occupancy.0, t),
{
    let ray = north_ray(square);
    let both = ray.and(occupancy);
    match both.lsb_index() {
        Some(blocking_index) => {
            let blocked = north_ray(blocking_index);
            proof {
                assert forall|u: int| on_ray(Direction::North, square as int, u) && before(Direction::North, u, blocking_index as int) implies !bit(occupancy.0, u as u64) by {
                    assert(ray.has(u));
                    assert(both@.contains(u) == (ray@.contains(u) && occupancy@.contains(u)));
                    assert(!both.has(u));
                }
                assert(both.has(blocking_index as int));
                assert(both@.contains(blocking_index as int) == (ray@.contains(blocking_index as int)
                    && occupancy@.contains(blocking_index as int)));
                assert(ray.has(blocking_index as int));
                lemma_slide_blocked(Direction::North, square as int, occupancy.0, blocking_index as int);
            }
            let r = ray.without(blocked);
            proof {
                assert forall|t: int| #[trigger] r.has(t) == (ray.has(t) && !blocked.has(t)) by {
                    assert(r@.contains(t) == (ray@.contains(t) && !blocked@.contains(t)));
                }
            }
            r
        },
        None => {
            proof {
                assert forall|u: int| on_ray(Direction::North, square as int, u) implies !bit(occupancy.0, u as u64) by {
                    assert(ray.has(u));
                    assert(both@.contains(u) == (ray@.contains(u) && occupancy@.contains(u)));
                    assert(!both.has(u));
                }
                lemma_slide_free(Direction::North, square as int, occupancy.0);
            }
            ray
        },
    }
}

/// The squares attacked from `square` towards the south, up to and
/// including the first occupied square.
pub fn south_sliding_attacks(square: usize, occupancy: Bitboard) -> (r: Bitboard)
    requires
        square < 64,
    ensures
        forall|t: int| #[trigger] r.has(t) == slides_to(Direction::South, square as int, occupancy.0, t),
{
    let ray = south_ray(square);
    let both = ray.and(occupancy);
    match both.msb_index() {
        Some(blocking_index) => {
            let blocked = south_ray(blocking_index);
            proof {
                assert forall|u: int| on_ray(Direction::South, square as int, u) && before(Direction::South, u, blocking_index as int) implies !bit(occupancy.0, u as u64) by {
                    assert(ray.has(u));
                    assert(both@.contains(u) == (ray@.contains(u) && occupancy@.contains(u)));
                    assert(!both.has(u));
                }
                assert(both.has(blocking_index as int));
                assert(both@.contains(blocking_index as int) == (ray@.contains(blocking_index as int)
                    && occupancy@.contains(blocking_index as int)));
                assert(ray.has(blocking_index as int));
                lemma_slide_blocked(Direction::South, square as int, occupancy.0, blocking_index as int);
            }
            let r = ray.without(blocked);
            proof {
                assert forall|t: int| #[trigger] r.has(t) == (ray.has(t) && !blocked.has(t)) by {
                    assert(r@.contains(t) == (ray@.contains(t) && !blocked@.contains(t)));
                }
            }
            r
        },
        None => {
            proof {
                assert forall|u: int| on_ray(Direction::South, square as int, u) implies !bit(occupancy.0, u as u64) by {
                    assert(ray.has(u));
                    assert(both@.contains(u) == (ray@.contains(u) && occupancy@.contains(u)));
                    assert(!both.has(u));
                }
                lemma_slide_free(Direction::South, square as int, occupancy.0);
            }
            ray
        },
    }
}

/// The squares attacked from `square` towards the east, up to and
/// including the first occupied square.
pub fn east_sliding_attacks(square: usize, occupancy: Bitboard) -> (r: Bitboard)
    requires
        square < 64,
    ensures
        forall|t: int| #[trigger] r.has(t) == slides_to(Direction::East, square as int, occupancy.0, t),
{
    let ray = east_ray(square);
    let both = ray.and(occupancy);
    match both.lsb_index() {
        Some(blocking_index) => {
            let blocked = east_ray(blocking_index);
            proof {
                assert forall|u: int| on_ray(Direction::East, square as int, u) && before(Direction::East, u, blocking_index as int) implies !bit(occupancy.0, u as u64) by {
                    assert(ray.has(u));
                    assert(both@.contains(u) == (ray@.contains(u) && occupancy@.contains(u)));
                    assert(!both.has(u));
                }
                assert(both.has(blocking_index as int));
                assert(both@.contains(blocking_index as int) == (ray@.contains(blocking_index as int)
                    && occupancy@.contains(blocking_index as int)));
                assert(ray.has(blocking_index as int));
                lemma_slide_blocked(Direction::East, square as int, occupancy.0, blocking_index as int);
            }
            let r = ray.without(blocked);
            proof {
                assert forall|t: int| #[trigger] r.has(t) == (ray.has(t) && !blocked.has(t)) by {
                    assert(r@.contains(t) == (ray@.contains(t) && !blocked@.contains(t)));
                }
            }
            r
        },
        None => {
            proof {
                assert forall|u: int| on_ray(Direction::East, square as int, u) implies !bit(occupancy.0, u as u64) by {
                    assert(ray.has(u));
                    assert(both@.contains(u) == (ray@.contains(u) && occupancy@.contains(u)));
                    assert(!both.has(u));
                }
                lemma_slide_free(Direction::East, square as int, occupancy.0);
            }
            ray
        },
    }
}

/// The squares attacked from `square` towards the west, up to and
/// including the first occupied square.
pub fn west_sliding_attacks(square: usize, occupancy: Bitboard) -> (r: Bitboard)
    requires
        square < 64,
    ensures
        forall|t: int| #[trigger] r.has(t) == slides_to(Direction::West, square as int, occupancy.0, t),
{
    let ray = west_ray(square);
    let both = ray.and(occupancy);
    match both.msb_index() {
        Some(blocking_index) => {
            let blocked = west_ray(blocking_index);
            proof {
                assert forall|u: int| on_ray(Direction::West, square as int, u) && before(Direction::West, u, blocking_index as int) implies !bit(occupancy.0, u as u64) by {
                    assert(ray.has(u));
                    assert(both@.contains(u) == (ray@.contains(u) && occupancy@.contains(u)));
                    assert(!both.has(u));
                }
                assert(both.has(blocking_index as int));
                assert(both@.contains(blocking_index as int) == (ray@.contains(blocking_index as int)
                    && occupancy@.contains(blocking_index as int)));
                assert(ray.has(blocking_index as int));
                lemma_slide_blocked(Direction::West, square as int, occupancy.0, blocking_index as int);
            }
            let r = ray.without(blocked);
            proof {
                assert forall|t: int| #[trigger] r.has(t) == (ray.has(t) && !blocked.has(t)) by {
                    assert(r@.contains(t) == (ray@.contains(t) && !blocked@.contains(t)));
                }
            }
            r
        },
        None => {
            proof {
                assert forall|u: int| on_ray(Direction::West, square as int, u) implies !bit(occupancy.0, u as u64) by {
                    assert(ray.has(u));
                    assert(both@.contains(u) == (ray@.contains(u) && occupancy@.contains(u)));
                    assert(!both.has(u));
                }
                lemma_slide_free(Direction::West, square as int, occupancy.0);
            }
            ray
        },
    }
}

/// The squares a bishop on `square` attacks.
pub fn bishop_attacks(square: usize, occupancy: Bitboard) -> (r: Bitboard)
    requires
        square < 64,
    ensures
        forall|t: int| #[trigger] r.has(t) == bishop_reaches(square as int, occupancy.0, t),
{
    northeast_sliding_attacks(square, occupancy).or(northwest_sliding_attacks(square, occupancy)).or(
        southeast_sliding_attacks(square, occupancy),
    ).or(southwest_sliding_attacks(square, occupancy))
}

/// The squares a rook on `square` attacks.
pub fn rook_attacks(square: usize, occupancy: Bitboard) -> (r: Bitboard)
    requires
        square < 64,
    ensures
        forall|t: int| #[trigger] r.has(t) == rook_reaches(square as int, occupancy.0, t),
{
    north_sliding_attacks(square, occupancy).or(south_sliding_attacks(square, occupancy)).or(
        east_sliding_attacks(square, occupancy),
    ).or(west_sliding_attacks(square, occupancy))
}


/// The position of a knight's offset `(file step, rank step)` in the order
/// in which the table is filled.
pub open spec fn knight_offset_index(df: int, dr: int) -> int {
    if df == 1 && dr == 2 {
        0
    } else if df == 2 && dr == 1 {
        1
    } else if df == 2 && dr == -1 {
        2
    } else if df == 1 && dr == -2 {
        3
    } else if df == -1 && dr == -2 {
        4
    } else if df == -2 && dr == -1 {
        5
    } else if df == -2 && dr == 1 {
        6
    } else {
        7
    }
}

/// The squares a knight on `square` attacks.
pub fn knight_attacks(square: usize) -> (r: Bitboard)
    requires
        square < 64,
    ensures
        forall|t: int| #[trigger] r.has(t) == knight_step(square as int, t),
{
    let rank = square / 8;
    let file = square % 8;
    let knight_offsets: [(i8, i8); 8] = [(1, 2), (2, 1), (2, -1), (1, -2), (-1, -2), (-2, -1), (-2, 1), (-1, 2)];
    let mut attacks = Bitboard(0);
    let mut offset: usize = 0;
    while offset < 8
        invariant
            square < 64,
            rank == square / 8,
            file == square % 8,
            offset <= 8,
            knight_offsets@ == seq![(1i8, 2i8), (2i8, 1i8), (2i8, -1i8), (1i8, -2i8), (-1i8, -2i8), (-2i8, -1i8), (-2i8, 1i8), (-1i8, 2i8)],
            forall|t: int| #[trigger] attacks.has(t) == (knight_step(square as int, t) && knight_offset_index(
                file_of(t) - file_of(square as int),
                rank_of(t) - rank_of(square as int),
            ) < offset),
        decreases 8 - offset,
    {
        let (df, dr) = knight_offsets[offset];
        let target_file = file as i8 + df;
        let target_rank = rank as i8 + dr;
        if target_file >= 0 && target_file < 8 && target_rank >= 0 && target_rank < 8 {
            let ghost prev = attacks;
            let target = (target_rank * 8 + target_file) as usize;
            attacks.set(target);
            proof {
                assert forall|t: int| #[trigger] attacks.has(t) == (knight_step(square as int, t) && knight_offset_index(
                    file_of(t) - file_of(square as int),
                    rank_of(t) - rank_of(square as int),
                ) < offset + 1) by {
                    lemma_coords(t);
                    lemma_coords(square as int);
                    lemma_coords(target as int);
                    assert(attacks@ == prev@.insert(target as int));
                    assert(attacks.has(t) == (prev.has(t) || t == target));
                }
            }
        } else {
            proof {
                assert forall|t: int| #[trigger] attacks.has(t) == (knight_step(square as int, t) && knight_offset_index(
                    file_of(t) - file_of(square as int),
                    rank_of(t) - rank_of(square as int),
                ) < offset + 1) by {
                    lemma_coords(t);
                    lemma_coords(square as int);
                }
            }
        }
        offset += 1;
    }
    attacks
}

/// The squares a king on `square` attacks.
pub fn king_attacks(square: usize) -> (r: Bitboard)
    requires
        square < 64,
    ensures
        forall|t: int| #[trigger] r.has(t) == king_step(square as int, t),
{
    let rank = square / 8;
    let file = square % 8;
    let mut attacks = Bitboard(0);
    let mut target_rank = if rank > 0 { rank - 1 } else { 0 };
    let ghost first_rank = target_rank as int;
    let ghost first_file = if file > 0 { file - 1 } else { 0 };
    while target_rank <= rank + 1 && target_rank < 8
        invariant
            square < 64,
            rank == square / 8,
            file == square % 8,
            first_rank == if rank > 0 { rank - 1 } else { 0 },
            first_rank <= target_rank <= 8,
            target_rank <= rank + 2,
            forall|t: int| #[trigger] attacks.has(t) == (king_step(square as int, t) && rank_of(t) < target_rank),
        decreases 8 - target_rank,
    {
        let mut target_file = if file > 0 { file - 1 } else { 0 };
        while target_file <= file + 1 && target_file < 8
            invariant
                square < 64,
                rank == square / 8,
                file == square % 8,
                target_rank < 8,
                target_rank <= rank + 1,
                first_rank <= target_rank,
                first_rank == if rank > 0 { rank - 1 } else { 0 },
                (if file > 0 { file - 1 } else { 0 }) <= target_file <= 8,
                target_file <= file + 2,
                forall|t: int| #[trigger] attacks.has(t) == (king_step(square as int, t) && (rank_of(t) < target_rank
                    || (rank_of(t) == target_rank && file_of(t) < target_file))),
            decreases 8 - target_file,
        {
            if target_rank != rank || target_file != file {
                let ghost prev = attacks;
                let target = target_rank * 8 + target_file;
                attacks.set(target);
                proof {
                    assert forall|t: int| #[trigger] attacks.has(t) == (king_step(square as int, t) && (rank_of(t)
                        < target_rank || (rank_of(t) == target_rank && file_of(t) < target_file + 1))) by {
                        lemma_coords(t);
                        lemma_coords(square as int);
                        lemma_coords(target as int);
                        assert(attacks@ == prev@.insert(target as int));
                        assert(attacks.has(t) == (prev.has(t) || t == target));
                    }
                }
            } else {
                proof {
                    assert forall|t: int| #[trigger] attacks.has(t) == (king_step(square as int, t) && (rank_of(t)
                        < target_rank || (rank_of(t) == target_rank && file_of(t) < target_file + 1))) by {
                        lemma_coords(t);
                        lemma_coords(square as int);
                    }
                }
            }
            target_file += 1;
        }
        proof {
            assert forall|t: int| #[trigger] attacks.has(t) == (king_step(square as int, t) && rank_of(t) < target_rank + 1) by {
                lemma_coords(t);
                lemma_coords(square as int);
            }
        }
        target_rank += 1;
    }
    proof {
        assert forall|t: int| #[trigger] attacks.has(t) == king_step(square as int, t) by {
            lemma_coords(t);
            lemma_coords(square as int);
        }
    }
    attacks
}

/// The squares a pawn of color index `color` on `square` attacks.
pub fn pawn_attacks(color: usize, square: usize) -> (r: Bitboard)
    requires
        color < 2,
        square < 64,
    ensures
        forall|t: int| #[trigger] r.has(t) == pawn_attack(color as int, square as int, t),
{
    let rank = square / 8;
    let file = square % 8;
    let mut attacks = Bitboard(0);
    proof {
        lemma_coords(square as int);
    }
    if color == 0 {
        if rank < 7 {
            if file > 0 {
                attacks.set(square + 7);
            }
            if file < 7 {
                attacks.set(square + 9);
            }
        }
    } else {
        if rank > 0 {
            if file > 0 {
                attacks.set(square - 9);
            }
            if file < 7 {
                attacks.set(square - 7);
            }
        }
    }
    proof {
        assert forall|t: int| #[trigger] attacks.has(t) == pawn_attack(color as int, square as int, t) by {
            lemma_coords(t);
            lemma_coords(square as int);
            lemma_coords(square + 7);
            lemma_coords(square + 9);
            lemma_coords(square - 7);
            lemma_coords(square - 9);
        }
    }
    attacks
}

/// The square a pawn of color index `color` on `square` steps forward to.
pub fn pawn_pushes(color: usize, square: usize) -> (r: Bitboard)
    requires
        color < 2,
        square < 64,
    ensures
        forall|t: int| #[trigger] r.has(t) == pawn_push(color as int, square as int, t),
{
    let rank = square / 8;
    let mut moves = Bitboard(0);
    proof {
        lemma_coords(square as int);
    }
    if color == 0 {
        if rank < 7 {
            moves.set(square + 8);
        }
    } else {
        if rank > 0 {
            moves.set(square - 8);
        }
    }
    proof {
        assert forall|t: int| #[trigger] moves.has(t) == pawn_push(color as int, square as int, t) by {
            lemma_coords(t);
        }
    }
    moves
}

/// The square a pawn of color index `color` on its starting rank jumps to.
pub fn pawn_double_pushes(color: usize, square: usize) -> (r: Bitboard)
    requires
        color < 2,
        square < 64,
    ensures
        forall|t: int| #[trigger] r.has(t) == pawn_double(color as int, square as int, t),
{
    let rank = square / 8;
    let mut moves = Bitboard(0);
    proof {
        lemma_coords(square as int);
    }
    if color == 0 {
        if rank == 1 {
            moves.set(square + 16);
        }
    } else {
        if rank == 6 {
            moves.set(square - 16);
        }
    }
    proof {
        assert forall|t: int| #[trigger] moves.has(t) == pawn_double(color as int, square as int, t) by {
            lemma_coords(t);
        }
    }
    moves
}


/// Precomputed rays, attacks and pawn moves for every square, indexed by
/// square (and by color index for pawns).
pub struct BitboardTables {
    pub north_ray: [Bitboard; 64],
    pub south_ray: [Bitboard; 64],
    pub east_ray: [Bitboard; 64],
    pub west_ray: [Bitboard; 64],
    pub northeast_ray: [Bitboard; 64],
    pub northwest_ray: [Bitboard; 64],
    pub southeast_ray: [Bitboard; 64],
    pub southwest_ray: [Bitboard; 64],
    pub knight_attacks: [Bitboard; 64],
    pub king_attacks: [Bitboard; 64],
    pub pawn_attacks: [[Bitboard; 64]; 2],
    pub pawn_moves: [[Bitboard; 64]; 2],
    pub pawn_double_moves: [[Bitboard; 64]; 2],
}

/// Computes the tables of rays, attacks and pawn moves for every square.
pub fn generate_bitboard_tables() -> (r: BitboardTables)
    ensures
            forall|s: int, t: int| 0 <= s < 64 ==> #[trigger] r.north_ray[s].has(t) == on_ray(Direction::North, s, t),
            forall|s: int, t: int| 0 <= s < 64 ==> #[trigger] r.south_ray[s].has(t) == on_ray(Direction::South, s, t),
            forall|s: int, t: int| 0 <= s < 64 ==> #[trigger] r.east_ray[s].has(t) == on_ray(Direction::East, s, t),
            forall|s: int, t: int| 0 <= s < 64 ==> #[trigger] r.west_ray[s].has(t) == on_ray(Direction::West, s, t),
            forall|s: int, t: int| 0 <= s < 64 ==> #[trigger] r.northeast_ray[s].has(t) == on_ray(Direction::NorthEast, s, t),
            forall|s: int, t: int| 0 <= s < 64 ==> #[trigger] r.northwest_ray[s].has(t) == on_ray(Direction::NorthWest, s, t),
            forall|s: int, t: int| 0 <= s < 64 ==> #[trigger] r.southeast_ray[s].has(t) == on_ray(Direction::SouthEast, s, t),
            forall|s: int, t: int| 0 <= s < 64 ==> #[trigger] r.southwest_ray[s].has(t) == on_ray(Direction::SouthWest, s, t),
            forall|s: int, t: int| 0 <= s < 64 ==> #[trigger] r.knight_attacks[s].has(t) == knight_step(s, t),
            forall|s: int, t: int| 0 <= s < 64 ==> #[trigger] r.king_attacks[s].has(t) == king_step(s, t),
            forall|c: int, s: int, t: int|
                0 <= c < 2 && 0 <= s < 64 ==> #[trigger] r.pawn_attacks[c][s].has(t) == pawn_attack(c, s, t),
            forall|c: int, s: int, t: int|
                0 <= c < 2 && 0 <= s < 64 ==> #[trigger] r.pawn_moves[c][s].has(t) == pawn_push(c, s, t),
            forall|c: int, s: int, t: int|
                0 <= c < 2 && 0 <= s < 64 ==> #[trigger] r.pawn_double_moves[c][s].has(t) == pawn_double(c, s, t),
{
    let mut north_ray_table = [Bitboard(0); 64];
    let mut south_ray_table = [Bitboard(0); 64];
    let mut east_ray_table = [Bitboard(0); 64];
    let mut west_ray_table = [Bitboard(0); 64];
    let mut northeast_ray_table = [Bitboard(0); 64];
    let mut northwest_ray_table = [Bitboard(0); 64];
    let mut southeast_ray_table = [Bitboard(0); 64];
    let mut southwest_ray_table = [Bitboard(0); 64];
    let mut knight_attacks_table = [Bitboard(0); 64];
    let mut king_attacks_table = [Bitboard(0); 64];
    let mut white_pawn_attacks_table = [Bitboard(0); 64];
    let mut black_pawn_attacks_table = [Bitboard(0); 64];
    let mut white_pawn_moves_table = [Bitboard(0); 64];
    let mut black_pawn_moves_table = [Bitboard(0); 64];
    let mut white_pawn_double_moves_table = [Bitboard(0); 64];
    let mut black_pawn_double_moves_table = [Bitboard(0); 64];
    let mut square: usize = 0;
    while square < 64
        invariant
            square <= 64,
            forall|s: int, t: int| 0 <= s < square ==> #[trigger] north_ray_table[s].has(t) == on_ray(Direction::North, s, t),
            forall|s: int, t: int| 0 <= s < square ==> #[trigger] south_ray_table[s].has(t) == on_ray(Direction::South, s, t),
            forall|s: int, t: int| 0 <= s < square ==> #[trigger] east_ray_table[s].has(t) == on_ray(Direction::East, s, t),
            forall|s: int, t: int| 0 <= s < square ==> #[trigger] west_ray_table[s].has(t) == on_ray(Direction::West, s, t),
            forall|s: int, t: int| 0 <= s < square ==> #[trigger] northeast_ray_table[s].has(t) == on_ray(Direction::NorthEast, s, t),
            forall|s: int, t: int| 0 <= s < square ==> #[trigger] northwest_ray_table[s].has(t) == on_ray(Direction::NorthWest, s, t),
            forall|s: int, t: int| 0 <= s < square ==> #[trigger] southeast_ray_table[s].has(t) == on_ray(Direction::SouthEast, s, t),
            forall|s: int, t: int| 0 <= s < square ==> #[trigger] southwest_ray_table[s].has(t) == on_ray(Direction::SouthWest, s, t),
            forall|s: int, t: int| 0 <= s < square ==> #[trigger] knight_attacks_table[s].has(t) == knight_step(s, t),
            forall|s: int, t: int| 0 <= s < square ==> #[trigger] king_attacks_table[s].has(t) == king_step(s, t),
            forall|s: int, t: int| 0 <= s < square ==> #[trigger] white_pawn_attacks_table[s].has(t) == pawn_attack(0, s, t),
            forall|s: int, t: int| 0 <= s < square ==> #[trigger] white_pawn_moves_table[s].has(t) == pawn_push(0, s, t),
            forall|s: int, t: int| 0 <= s < square ==> #[trigger] white_pawn_double_moves_table[s].has(t) == pawn_double(0, s, t),
            forall|s: int, t: int| 0 <= s < square ==> #[trigger] black_pawn_attacks_table[s].has(t) == pawn_attack(1, s, t),
            forall|s: int, t: int| 0 <= s < square ==> #[trigger] black_pawn_moves_table[s].has(t) == pawn_push(1, s, t),
            forall|s: int, t: int| 0 <= s < square ==> #[trigger] black_pawn_double_moves_table[s].has(t) == pawn_double(1, s, t),
        decreases 64 - square,
    {
        north_ray_table[square] = north_ray(square);
        south_ray_table[square] = south_ray(square);
        east_ray_table[square] = east_ray(square);
        west_ray_table[square] = west_ray(square);
        northeast_ray_table[square] = northeast_ray(square);
        northwest_ray_table[square] = northwest_ray(square);
        southeast_ray_table[square] = southeast_ray(square);
        southwest_ray_table[square] = southwest_ray(square);
        knight_attacks_table[square] = knight_attacks(square);
        king_attacks_table[square] = king_attacks(square);
        white_pawn_attacks_table[square] = pawn_attacks(0, square);
        black_pawn_attacks_table[square] = pawn_attacks(1, square);
        white_pawn_moves_table[square] = pawn_pushes(0, square);
        black_pawn_moves_table[square] = pawn_pushes(1, square);
        white_pawn_double_moves_table[square] = pawn_double_pushes(0, square);
        black_pawn_double_moves_table[square] = pawn_double_pushes(1, square);
        square += 1;
    }
    BitboardTables {
        north_ray: north_ray_table,
        south_ray: south_ray_table,
        east_ray: east_ray_table,
        west_ray: west_ray_table,
        northeast_ray: northeast_ray_table,
        northwest_ray: northwest_ray_table,
        southeast_ray: southeast_ray_table,
        southwest_ray: southwest_ray_table,
        knight_attacks: knight_attacks_table,
        king_attacks: king_attacks_table,
        pawn_attacks: [white_pawn_attacks_table, black_pawn_attacks_table],
        pawn_moves: [white_pawn_moves_table, black_pawn_moves_table],
        pawn_double_moves: [white_pawn_double_moves_table, black_pawn_double_moves_table],
    }
}

} // verus!
