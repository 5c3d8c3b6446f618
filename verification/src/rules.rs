use vstd::prelude::*;
use crate::attacks::{
    before, king_step, knight_step, lemma_coords, on_ray, pawn_attack, pawn_dir, pawn_double, pawn_push,
    slides_to, Direction,
};
use crate::bitboard::{bit, file_of, is_square, rank_of};
use crate::board::Board;
use crate::pieces::{Color, Move, MoveType, PieceType};

verus! {

/// What stands on each square: a piece type and its color, or nothing.
pub type Placement = spec_fn(int) -> Option<(PieceType, Color)>;

/// The squares that hold a piece.
pub open spec fn occupancy(place: Placement) -> Set<int> {
    Set::new(|u: int| is_square(u) && place(u) is Some)
}

/// `t` lies on the ray from `s` in direction `d`, and no square of `occ`
/// stands between them.
pub open spec fn clear_path(d: Direction, s: int, t: int, occ: Set<int>) -> bool {
    &&& on_ray(d, s, t)
    &&& forall|u: int| #![trigger occ.contains(u)] on_ray(d, s, u) && before(d, u, t) ==> !occ.contains(u)
}

/// Whether a direction is diagonal.
pub open spec fn is_diagonal(d: Direction) -> bool {
    match d {
        Direction::NorthEast | Direction::NorthWest | Direction::SouthEast | Direction::SouthWest => true,
        _ => false,
    }
}

/// The opposite direction.
pub open spec fn reverse(d: Direction) -> Direction {
    match d {
        Direction::North => Direction::South,
        Direction::South => Direction::North,
        Direction::East => Direction::West,
        Direction::West => Direction::East,
        Direction::NorthEast => Direction::SouthWest,
        Direction::SouthWest => Direction::NorthEast,
        Direction::NorthWest => Direction::SouthEast,
        Direction::SouthEast => Direction::NorthWest,
    }
}

/// A bishop's reach from `s` to `t`.
pub open spec fn diagonal_reach(s: int, t: int, occ: Set<int>) -> bool {
    ||| clear_path(Direction::NorthEast, s, t, occ)
    ||| clear_path(Direction::NorthWest, s, t, occ)
    ||| clear_path(Direction::SouthEast, s, t, occ)
    ||| clear_path(Direction::SouthWest, s, t, occ)
}

/// A rook's reach from `s` to `t`.
pub open spec fn straight_reach(s: int, t: int, occ: Set<int>) -> bool {
    ||| clear_path(Direction::North, s, t, occ)
    ||| clear_path(Direction::South, s, t, occ)
    ||| clear_path(Direction::East, s, t, occ)
    ||| clear_path(Direction::West, s, t, occ)
}

/// Whether a piece of type `p` and color `c` on `s` attacks `t`, with the
/// pieces on `occ` in the way of sliding pieces.
pub open spec fn attacks_square(p: PieceType, c: Color, s: int, t: int, occ: Set<int>) -> bool {
    match p {
        PieceType::Pawn => pawn_attack(c.spec_index(), s, t),
        PieceType::Knight => knight_step(s, t),
        PieceType::Bishop => diagonal_reach(s, t, occ),
        PieceType::Rook => straight_reach(s, t, occ),
        PieceType::Queen => diagonal_reach(s, t, occ) || straight_reach(s, t, occ),
        PieceType::King => king_step(s, t),
    }
}

/// Whether some piece of color `by` attacks square `t`.
pub open spec fn attacked(place: Placement, t: int, by: Color) -> bool {
    exists|s: int|
        #![trigger place(s)]
        is_square(s) && (place(s) matches Some((p, c)) && c == by && attacks_square(
            p,
            c,
            s,
            t,
            occupancy(place),
        ))
}

/// Whether a king of color `c` is attacked by a piece of the other color.
pub open spec fn in_check(place: Placement, c: Color) -> bool {
    exists|k: int|
        #![trigger place(k)]
        is_square(k) && place(k) == Some((PieceType::King, c)) && attacked(place, k, c.spec_opposite())
}

/// Whether the piece on a square is a sliding piece of color `by` that moves
/// along direction `d`.
pub open spec fn slider_for(d: Direction, piece: Option<(PieceType, Color)>, by: Color) -> bool {
    match piece {
        Some((p, c)) => c == by && (p == PieceType::Queen || if is_diagonal(d) {
            p == PieceType::Bishop
        } else {
            p == PieceType::Rook
        }),
        None => false,
    }
}

/// Whether a square is on the first or the last rank.
pub open spec fn back_rank(sq: int) -> bool {
    rank_of(sq) == 0 || rank_of(sq) == 7
}

// -------------------------------------------------------------------------
// Geometry

/// Two ways of saying that a slider's path is clear agree when the word's
/// bits are the set's squares.
pub proof fn lemma_slides_clear(d: Direction, s: int, w: u64, t: int, occ: Set<int>)
    requires
        forall|u: int| is_square(u) ==> #[trigger] occ.contains(u) == bit(w, u as u64),
    ensures
        slides_to(d, s, w, t) == clear_path(d, s, t, occ),
{
    if on_ray(d, s, t) {
        assert forall|u: int| on_ray(d, s, u) && before(d, u, t) implies (!occ.contains(u) <==> !bit(w, u as u64)) by {
            assert(occ.contains(u) == bit(w, u as u64));
        }
        if slides_to(d, s, w, t) {
            assert forall|u: int| on_ray(d, s, u) && before(d, u, t) implies !occ.contains(u) by {
                assert(!bit(w, u as u64));
            }
        }
        if clear_path(d, s, t, occ) {
            assert forall|u: int| #![trigger bit(w, u as u64)] on_ray(d, s, u) && before(d, u, t) implies !bit(w, u as u64) by {
                assert(!occ.contains(u));
            }
        }
    }
}

/// A path read backwards is a path in the opposite direction.
pub proof fn lemma_clear_reverse(d: Direction, s: int, t: int, occ: Set<int>)
    ensures
        on_ray(d, s, t) == on_ray(reverse(d), t, s),
        clear_path(d, s, t, occ) == clear_path(reverse(d), t, s, occ),
{
    lemma_coords(s);
    lemma_coords(t);
    assert forall|u: int| on_ray(d, s, t) implies ((on_ray(d, s, u) && before(d, u, t)) <==> (on_ray(reverse(d), t, u) && before(reverse(d), u, s))) by {
        lemma_coords(u);
    }
    if clear_path(d, s, t, occ) {
        assert forall|u: int| on_ray(reverse(d), t, u) && before(reverse(d), u, s) implies !occ.contains(u) by {
            assert(on_ray(d, s, u) && before(d, u, t));
        }
    }
    if clear_path(reverse(d), t, s, occ) {
        assert forall|u: int| on_ray(d, s, u) && before(d, u, t) implies !occ.contains(u) by {
            assert(on_ray(reverse(d), t, u) && before(reverse(d), u, s));
        }
    }
}

/// A square lies on at most one ray from a given square.
pub proof fn lemma_ray_unique(d: Direction, e: Direction, s: int, t: int)
    requires
        on_ray(d, s, t),
        on_ray(e, s, t),
    ensures
        d == e,
{
}

/// Two squares on one ray from `s` are equal or one comes before the other.
pub proof fn lemma_ray_total(d: Direction, s: int, a: int, b: int)
    requires
        on_ray(d, s, a),
        on_ray(d, s, b),
    ensures
        a == b || before(d, a, b) || before(d, b, a),
{
}

/// The pawn attack relation read backwards: a pawn of one color on `s`
/// attacks `t` exactly when a pawn of the other color on `t` attacks `s`.
pub proof fn lemma_pawn_attack_reverse(c: Color, s: int, t: int)
    ensures
        pawn_attack(c.spec_index(), s, t) == pawn_attack(c.spec_opposite().spec_index(), t, s),
{
    lemma_coords(s);
    lemma_coords(t);
}

/// Knight and king steps are symmetric.
pub proof fn lemma_step_reverse(s: int, t: int)
    ensures
        knight_step(s, t) == knight_step(t, s),
        king_step(s, t) == king_step(t, s),
{
    lemma_coords(s);
    lemma_coords(t);
}

} // verus!
