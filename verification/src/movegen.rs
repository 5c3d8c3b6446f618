use vstd::prelude::*;
use crate::attacks::{
    bishop_attacks, bishop_reaches, east_sliding_attacks, king_attacks, king_step, knight_attacks,
    knight_step, lemma_coords, north_sliding_attacks, northeast_sliding_attacks, northwest_sliding_attacks,
    on_ray, pawn_attack, pawn_attacks, pawn_dir, pawn_double, pawn_double_pushes, pawn_push, pawn_pushes,
    rook_attacks, rook_reaches, slides_to, south_sliding_attacks, southeast_sliding_attacks,
    southwest_sliding_attacks, west_sliding_attacks, Direction,
};
use crate::bitboard::{bit, file_of, group_bit_lemmas, is_square, lemma_nonzero, popcount, rank_of, Bitboard};
use crate::board::{clear_right, king_home, lemma_unmake_inverts_make, revoke_rights, revokes, rook_home, Board};
use crate::pieces::{CastlingRights, Color, Move, MoveType, PieceType};
use crate::rules::{
    attacked, attacks_square, back_rank, clear_path, diagonal_reach, in_check, is_diagonal, lemma_clear_reverse,
    lemma_pawn_attack_reverse, lemma_ray_total, lemma_ray_unique, lemma_slides_clear, lemma_step_reverse,
    occupancy, reverse, slider_for, straight_reach, Placement,
};

verus! {

broadcast use group_bit_lemmas;

impl Board {
    /// What stands on each square.
    pub open spec fn placement(&self) -> Placement {
        |sq: int| self.at(sq)
    }

    /// The occupied squares.
    pub open spec fn occupied(&self) -> Set<int> {
        occupancy(self.placement())
    }

    /// The board with the king of the side to move lifted off.
    pub open spec fn ignoring_king(&self) -> Placement {
        |sq: int|
            if self.at(sq) == Some((PieceType::King, self.spec_active())) {
                None
            } else {
                self.at(sq)
            }
    }

    /// What stands on each square after `mv` is played.
    pub open spec fn after(&self, mv: Move) -> Placement {
        |sq: int| self.after_at(mv, sq)
    }

    /// The color bitboards agree with the pieces.
    proof fn lemma_colors(&self)
        requires
            self.placement_ok(),
        ensures
            forall|u: int, c: Color|
                is_square(u) ==> #[trigger] self.color_bb(c.spec_index()).has(u) == (self.at(u) matches Some(
                    (_, c2),
                ) && c2 == c),
            forall|u: int|
                is_square(u) ==> #[trigger] bit(self.color_bb(0).0 | self.color_bb(1).0, u as u64) == (self.at(
                    u,
                ) is Some),
    {
        assert forall|u: int, c: Color|
            is_square(u) implies #[trigger] self.color_bb(c.spec_index()).has(u) == (self.at(u) matches Some(
                (_, c2),
            ) && c2 == c) by {
            assert(self.square_consistent(u));
        }
        assert forall|u: int|
            is_square(u) implies #[trigger] bit(self.color_bb(0).0 | self.color_bb(1).0, u as u64) == (self.at(
                u,
            ) is Some) by {
            assert(self.square_consistent(u));
        }
    }

    /// Whether a piece of the side not to move attacks `square`, with the king
    /// of the side to move lifted off the board.
    fn is_attacked_ignore_king(&self, square: usize) -> (r: bool)
        requires
            self.placement_ok(),
            square < 64,
        ensures
            r == attacked(self.ignoring_king(), square as int, self.spec_active().spec_opposite()),
    {
        let opponent = self.active_color().opposite();
        let enemy_pawns = self.pawns(opponent);
        let enemy_knights = self.knights(opponent);
        let enemy_kings = self.kings(opponent);
        let diagonal_attackers = self.bishops(opponent).or(self.queens(opponent));
        let straight_attackers = self.rooks(opponent).or(self.queens(opponent));
        let own_kings = self.kings(self.active_color());
        let occupancy_bb = self.all_pieces().without(own_kings);
        let pawn_hits = pawn_attacks(self.active_color().index(), square).and(enemy_pawns);
        let knight_hits = knight_attacks(square).and(enemy_knights);
        let king_hits = king_attacks(square).and(enemy_kings);
        let diagonal_hits = bishop_attacks(square, occupancy_bb).and(diagonal_attackers);
        let straight_hits = rook_attacks(square, occupancy_bb).and(straight_attackers);
        let r = !pawn_hits.is_empty() || !knight_hits.is_empty() || !king_hits.is_empty()
            || !diagonal_hits.is_empty() || !straight_hits.is_empty();
        proof {
            let x = self.spec_active();
            let y = x.spec_opposite();
            let place = self.ignoring_king();
            let occ = occupancy(place);
            let t = square as int;
            self.lemma_colors();
            assert forall|u: int| is_square(u) implies #[trigger] occ.contains(u) == bit(occupancy_bb.0, u as u64) by {
                self.lemma_spec_pieces(PieceType::King, x, u);
            }
            assert forall|s: int|
                is_square(s) implies (#[trigger] place(s) matches Some((p, c)) && c == y && attacks_square(
                    p,
                    c,
                    s,
                    t,
                    occ,
                )) == (pawn_hits.has(s) || knight_hits.has(s) || king_hits.has(s) || diagonal_hits.has(s)
                    || straight_hits.has(s)) by {
                self.lemma_spec_pieces(PieceType::Pawn, y, s);
                self.lemma_spec_pieces(PieceType::Knight, y, s);
                self.lemma_spec_pieces(PieceType::Bishop, y, s);
                self.lemma_spec_pieces(PieceType::Rook, y, s);
                self.lemma_spec_pieces(PieceType::Queen, y, s);
                self.lemma_spec_pieces(PieceType::King, y, s);
                lemma_pawn_attack_reverse(x, t, s);
                lemma_step_reverse(t, s);
                lemma_reach_reverse(t, s, occupancy_bb.0, occ);
            }
            if r {
                if pawn_hits.0 != 0 {
                    lemma_nonzero(pawn_hits);
                    let s = choose|s: int| pawn_hits.has(s);
                    assert(place(s) matches Some((p, c)) && c == y && attacks_square(p, c, s, t, occ));
                } else if knight_hits.0 != 0 {
                    lemma_nonzero(knight_hits);
                    let s = choose|s: int| knight_hits.has(s);
                    assert(place(s) matches Some((p, c)) && c == y && attacks_square(p, c, s, t, occ));
                } else if king_hits.0 != 0 {
                    lemma_nonzero(king_hits);
                    let s = choose|s: int| king_hits.has(s);
                    assert(place(s) matches Some((p, c)) && c == y && attacks_square(p, c, s, t, occ));
                } else if diagonal_hits.0 != 0 {
                    lemma_nonzero(diagonal_hits);
                    let s = choose|s: int| diagonal_hits.has(s);
                    assert(place(s) matches Some((p, c)) && c == y && attacks_square(p, c, s, t, occ));
                } else {
                    lemma_nonzero(straight_hits);
                    let s = choose|s: int| straight_hits.has(s);
                    assert(place(s) matches Some((p, c)) && c == y && attacks_square(p, c, s, t, occ));
                }
            } else {
                lemma_nonzero(pawn_hits);
                lemma_nonzero(knight_hits);
                lemma_nonzero(king_hits);
                lemma_nonzero(diagonal_hits);
                lemma_nonzero(straight_hits);
            }
        }
        r
    }
}

/// A bishop's and a rook's reach read backwards.
pub proof fn lemma_reach_reverse(t: int, s: int, w: u64, occ: Set<int>)
    requires
        forall|u: int| is_square(u) ==> #[trigger] occ.contains(u) == bit(w, u as u64),
    ensures
        bishop_reaches(t, w, s) == diagonal_reach(s, t, occ),
        rook_reaches(t, w, s) == straight_reach(s, t, occ),
{
    lemma_slides_clear(Direction::NorthEast, t, w, s, occ);
    lemma_slides_clear(Direction::NorthWest, t, w, s, occ);
    lemma_slides_clear(Direction::SouthEast, t, w, s, occ);
    lemma_slides_clear(Direction::SouthWest, t, w, s, occ);
    lemma_slides_clear(Direction::North, t, w, s, occ);
    lemma_slides_clear(Direction::South, t, w, s, occ);
    lemma_slides_clear(Direction::East, t, w, s, occ);
    lemma_slides_clear(Direction::West, t, w, s, occ);
    lemma_clear_reverse(Direction::NorthEast, t, s, occ);
    lemma_clear_reverse(Direction::NorthWest, t, s, occ);
    lemma_clear_reverse(Direction::SouthEast, t, s, occ);
    lemma_clear_reverse(Direction::SouthWest, t, s, occ);
    lemma_clear_reverse(Direction::North, t, s, occ);
    lemma_clear_reverse(Direction::South, t, s, occ);
    lemma_clear_reverse(Direction::East, t, s, occ);
    lemma_clear_reverse(Direction::West, t, s, occ);
}

/// The squares attacked from `square` in direction `d`, up to and including
/// the first occupied square.
fn sliding_attacks(d: Direction, square: usize, occupancy: Bitboard) -> (r: Bitboard)
    requires
        square < 64,
    ensures
        forall|t: int| #[trigger] r.has(t) == slides_to(d, square as int, occupancy.0, t),
{
    match d {
        Direction::North => north_sliding_attacks(square, occupancy),
        Direction::South => south_sliding_attacks(square, occupancy),
        Direction::East => east_sliding_attacks(square, occupancy),
        Direction::West => west_sliding_attacks(square, occupancy),
        Direction::NorthEast => northeast_sliding_attacks(square, occupancy),
        Direction::NorthWest => northwest_sliding_attacks(square, occupancy),
        Direction::SouthEast => southeast_sliding_attacks(square, occupancy),
        Direction::SouthWest => southwest_sliding_attacks(square, occupancy),
    }
}


/// A bishop's and a rook's reach, as words and as sets.
pub proof fn lemma_reach_forward(s: int, t: int, w: u64, occ: Set<int>)
    requires
        forall|u: int| is_square(u) ==> #[trigger] occ.contains(u) == bit(w, u as u64),
    ensures
        bishop_reaches(s, w, t) == diagonal_reach(s, t, occ),
        rook_reaches(s, w, t) == straight_reach(s, t, occ),
{
    lemma_slides_clear(Direction::NorthEast, s, w, t, occ);
    lemma_slides_clear(Direction::NorthWest, s, w, t, occ);
    lemma_slides_clear(Direction::SouthEast, s, w, t, occ);
    lemma_slides_clear(Direction::SouthWest, s, w, t, occ);
    lemma_slides_clear(Direction::North, s, w, t, occ);
    lemma_slides_clear(Direction::South, s, w, t, occ);
    lemma_slides_clear(Direction::East, s, w, t, occ);
    lemma_slides_clear(Direction::West, s, w, t, occ);
}

impl Board {
    /// A pawn of the side to move on `from` may go to `to`: one step forward
    /// onto an empty square, two steps from its starting rank across empty
    /// squares, or diagonally forward onto a piece of the other side.
    pub open spec fn pawn_move_ok(&self, from: int, to: int) -> bool {
        let c = self.spec_active().spec_index();
        ||| pawn_push(c, from, to) && self.at(to) is None
        ||| pawn_double(c, from, to) && self.at(to) is None && self.at(from + 8 * pawn_dir(c)) is None
        ||| pawn_attack(c, from, to) && (self.at(to) matches Some((_, col)) && col
            == self.spec_active().spec_opposite())
    }

    /// `to` does not hold a piece of the side to move.
    pub open spec fn lands_ok(&self, to: int) -> bool {
        !(self.at(to) matches Some((_, c)) && c == self.spec_active())
    }

    /// A piece of type `p` of the side to move on `from` may go to `to`
    /// (pawns excepted): it attacks `to`, and `to` holds no piece of its own.
    pub open spec fn piece_move_ok(&self, p: PieceType, from: int, to: int) -> bool {
        attacks_square(p, self.spec_active(), from, to, self.occupied()) && self.lands_ok(to)
    }

    /// The bitboards of the pieces agree with the pieces.
    proof fn lemma_occupied_word(&self)
        requires
            self.placement_ok(),
        ensures
            forall|u: int|
                is_square(u) ==> #[trigger] self.occupied().contains(u) == bit(
                    self.color_bb(0).0 | self.color_bb(1).0,
                    u as u64,
                ),
            forall|u: int, c: Color|
                is_square(u) ==> #[trigger] self.color_bb(c.spec_index()).has(u) == (self.at(u) matches Some(
                    (_, c2),
                ) && c2 == c),
    {
        self.lemma_colors();
    }

    /// The squares a pawn of the side to move on `square` may go to.
    fn pawn_moves(&self, square: usize) -> (r: Bitboard)
        requires
            self.placement_ok(),
            square < 64,
        ensures
            forall|t: int| #[trigger] r.has(t) == self.pawn_move_ok(square as int, t),
    {
        let all_pieces = self.all_pieces();
        let color = self.active_color().index();
        let pushes = pawn_pushes(color, square).without(all_pieces);
        let mut pawn_sliding_moves = pushes;
        let ghost c = self.spec_active().spec_index();
        let ghost p = square + 8 * pawn_dir(c);
        proof {
            self.lemma_occupied_word();
            lemma_coords(square as int);
            lemma_nonzero(pushes);
            if is_square(p) {
                assert(self.occupied().contains(p) == (self.at(p) is Some));
                assert(pushes.has(p) == (pawn_push(c, square as int, p) && self.at(p) is None));
            }
            if pushes.0 != 0 {
                let t0 = choose|t: int| pushes.has(t);
                assert(pawn_push(c, square as int, t0));
                assert(t0 == p);
            }
        }
        if !pushes.is_empty() {
            let pawn_double_move = pawn_double_pushes(color, square);
            pawn_sliding_moves = pawn_sliding_moves.or(pawn_double_move.without(all_pieces));
        }
        proof {
            assert((pushes.0 != 0) == (is_square(p) && self.at(p) is None));
        }
        let opponent = self.active_color().opposite();
        let enemy_pieces = self.pieces_of_color(opponent);
        let attacks = pawn_attacks(color, square);
        let r = pawn_sliding_moves.or(attacks.and(enemy_pieces));
        proof {
            assert forall|t: int| #[trigger] r.has(t) == self.pawn_move_ok(square as int, t) by {
                lemma_coords(t);
                if is_square(t) {
                    assert(self.occupied().contains(t) == (self.at(t) is Some));
                    let y = self.spec_active().spec_opposite();
                    assert(self.color_bb(y.spec_index()).has(t) == (self.at(t) matches Some((_, c2)) && c2 == y));
                }
                if pawn_double(c, square as int, t) {
                    assert(is_square(p));
                }
            }
        }
        r
    }

    /// The squares a knight of the side to move on `square` may go to.
    fn knight_moves(&self, square: usize) -> (r: Bitboard)
        requires
            self.placement_ok(),
            square < 64,
        ensures
            forall|t: int| #[trigger] r.has(t) == self.piece_move_ok(PieceType::Knight, square as int, t),
    {
        let friendly_pieces = self.pieces_of_color(self.active_color());
        proof {
            self.lemma_occupied_word();
        }
        knight_attacks(square).without(friendly_pieces)
    }

    /// The squares a bishop of the side to move on `square` may go to.
    fn bishop_moves(&self, square: usize) -> (r: Bitboard)
        requires
            self.placement_ok(),
            square < 64,
        ensures
            forall|t: int| #[trigger] r.has(t) == self.piece_move_ok(PieceType::Bishop, square as int, t),
    {
        let friendly_pieces = self.pieces_of_color(self.active_color());
        let all_pieces = self.all_pieces();
        let r = bishop_attacks(square, all_pieces).without(friendly_pieces);
        proof {
            self.lemma_occupied_word();
            assert forall|t: int| #[trigger] r.has(t) == self.piece_move_ok(PieceType::Bishop, square as int, t) by {
                lemma_reach_forward(square as int, t, all_pieces.0, self.occupied());
            }
        }
        r
    }

    /// The squares a rook of the side to move on `square` may go to.
    fn rook_moves(&self, square: usize) -> (r: Bitboard)
        requires
            self.placement_ok(),
            square < 64,
        ensures
            forall|t: int| #[trigger] r.has(t) == self.piece_move_ok(PieceType::Rook, square as int, t),
    {
        let friendly_pieces = self.pieces_of_color(self.active_color());
        let all_pieces = self.all_pieces();
        let r = rook_attacks(square, all_pieces).without(friendly_pieces);
        proof {
            self.lemma_occupied_word();
            assert forall|t: int| #[trigger] r.has(t) == self.piece_move_ok(PieceType::Rook, square as int, t) by {
                lemma_reach_forward(square as int, t, all_pieces.0, self.occupied());
            }
        }
        r
    }

    /// The squares a queen of the side to move on `square` may go to.
    fn queen_moves(&self, square: usize) -> (r: Bitboard)
        requires
            self.placement_ok(),
            square < 64,
        ensures
            forall|t: int| #[trigger] r.has(t) == self.piece_move_ok(PieceType::Queen, square as int, t),
    {
        let friendly_pieces = self.pieces_of_color(self.active_color());
        let all_pieces = self.all_pieces();
        let queen_attacks = rook_attacks(square, all_pieces).or(bishop_attacks(square, all_pieces));
        let r = queen_attacks.without(friendly_pieces);
        proof {
            self.lemma_occupied_word();
            assert forall|t: int| #[trigger] r.has(t) == self.piece_move_ok(PieceType::Queen, square as int, t) by {
                lemma_reach_forward(square as int, t, all_pieces.0, self.occupied());
            }
        }
        r
    }

    /// The squares a king of the side to move on `square` may step to,
    /// attacked or not.
    fn king_moves(&self, square: usize) -> (r: Bitboard)
        requires
            self.placement_ok(),
            square < 64,
        ensures
            forall|t: int| #[trigger] r.has(t) == self.piece_move_ok(PieceType::King, square as int, t),
    {
        let friendly_pieces = self.pieces_of_color(self.active_color());
        proof {
            self.lemma_occupied_word();
        }
        king_attacks(square).without(friendly_pieces)
    }
}


impl Board {
    /// The square of a king of the given color.
    pub open spec fn king_sq(&self, c: Color) -> int {
        choose|k: int| is_square(k) && self.at(k) == Some((PieceType::King, c))
    }

    /// The given color has exactly one king.
    pub open spec fn one_king(&self, c: Color) -> bool {
        &&& exists|k: int| is_square(k) && #[trigger] self.at(k) == Some((PieceType::King, c))
        &&& forall|a: int, b: int|
            #![trigger self.at(a), self.at(b)]
            is_square(a) && is_square(b) && self.at(a) == Some((PieceType::King, c)) && self.at(b) == Some(
                (PieceType::King, c),
            ) ==> a == b
    }

    /// The king of the side to move is checked along direction `d` from its
    /// square `k`: the first piece on that ray is a slider of the other side
    /// that moves along it.
    pub open spec fn checked_along(&self, k: int, d: Direction) -> bool {
        exists|t: int|
            #![trigger self.at(t)]
            clear_path(d, k, t, self.occupied()) && slider_for(d, self.at(t), self.spec_active().spec_opposite())
    }

    /// The squares from `k` along `d` up to and including the first piece.
    pub open spec fn first_ray(&self, k: int, d: Direction) -> Set<int> {
        Set::new(|u: int| clear_path(d, k, u, self.occupied()))
    }

    /// The squares from `k` along `d` up to and including the second piece,
    /// the first one lifted off.
    pub open spec fn through(&self, k: int, d: Direction, t: int) -> bool {
        clear_path(d, k, t, self.occupied().difference(self.first_ray(k, d)))
    }

    /// A piece of the side to move is pinned along `d` to its king on `k`:
    /// no check along `d`, the first piece on the ray is its own, and the
    /// second is a slider of the other side that moves along the ray.
    pub open spec fn pinned_along(&self, k: int, d: Direction) -> bool {
        &&& !self.checked_along(k, d)
        &&& exists|f: int|
            #![trigger self.at(f)]
            clear_path(d, k, f, self.occupied()) && (self.at(f) matches Some((_, c)) && c == self.spec_active())
        &&& exists|g: int|
            #![trigger self.at(g)]
            self.through(k, d, g) && slider_for(d, self.at(g), self.spec_active().spec_opposite())
    }

    /// A knight of the other side on `t` attacks the square `k`.
    pub open spec fn knight_checker(&self, k: int, t: int) -> bool {
        self.at(t) == Some((PieceType::Knight, self.spec_active().spec_opposite())) && knight_step(k, t)
    }

    /// A pawn of the other side on `t` attacks the square `k`.
    pub open spec fn pawn_checker(&self, k: int, t: int) -> bool {
        self.at(t) == Some((PieceType::Pawn, self.spec_active().spec_opposite())) && pawn_attack(
            self.spec_active().spec_index(),
            k,
            t,
        )
    }

    /// The number of checks on `k`: one for each direction along which it is
    /// checked, one if knights check it and one if pawns do.
    pub open spec fn check_count(&self, k: int) -> int {
        (if self.checked_along(k, Direction::NorthEast) { 1int } else { 0 })
            + (if self.checked_along(k, Direction::NorthWest) { 1int } else { 0 })
            + (if self.checked_along(k, Direction::SouthEast) { 1int } else { 0 })
            + (if self.checked_along(k, Direction::SouthWest) { 1int } else { 0 })
            + (if self.checked_along(k, Direction::North) { 1int } else { 0 })
            + (if self.checked_along(k, Direction::South) { 1int } else { 0 })
            + (if self.checked_along(k, Direction::East) { 1int } else { 0 })
            + (if self.checked_along(k, Direction::West) { 1int } else { 0 })
            + (if exists|t: int| #[trigger] self.knight_checker(k, t) { 1int } else { 0 })
            + (if exists|t: int| #[trigger] self.pawn_checker(k, t) { 1int } else { 0 })
    }

    /// The squares that block or capture a check on `k`.
    pub open spec fn blocks_check(&self, k: int, t: int) -> bool {
        ||| exists|d: Direction| #[trigger] self.checked_along(k, d) && clear_path(d, k, t, self.occupied())
        ||| self.knight_checker(k, t)
        ||| self.pawn_checker(k, t)
    }

    /// Looks along direction `d` from the king on `king`. Returns whether
    /// that is a check; with a check, the squares up to the checking piece,
    /// otherwise the squares of a pin along `d` (none without a pin).
    fn scan_ray(&self, d: Direction, king: usize, all: Bitboard, friendly: Bitboard, attackers: Bitboard) -> (r: (
        bool,
        Bitboard,
    ))
        requires
            self.placement_ok(),
            king < 64,
            all == Bitboard(self.color_bb(0).0 | self.color_bb(1).0),
            forall|t: int|
                #[trigger] friendly.has(t) == (is_square(t) && (self.at(t) matches Some((_, c)) && c
                    == self.spec_active())),
            forall|t: int|
                #[trigger] attackers.has(t) == (is_square(t) && slider_for(
                    d,
                    self.at(t),
                    self.spec_active().spec_opposite(),
                )),
        ensures
            r.0 == self.checked_along(king as int, d),
            r.0 ==> forall|t: int| #[trigger] r.1.has(t) == clear_path(d, king as int, t, self.occupied()),
            !r.0 ==> forall|t: int|
                #[trigger] r.1.has(t) == (self.pinned_along(king as int, d) && self.through(king as int, d, t)),
    {
        let ghost k = king as int;
        let attacks = sliding_attacks(d, king, all);
        proof {
            self.lemma_occupied_word();
            assert forall|t: int| #[trigger] attacks.has(t) == clear_path(d, k, t, self.occupied()) by {
                lemma_slides_clear(d, k, all.0, t, self.occupied());
            }
        }
        let hits = attacks.and(attackers);
        proof {
            lemma_nonzero(hits);
            if hits.0 != 0 {
                let t = choose|t: int| hits.has(t);
                assert(self.at(t) == self.at(t));  // brings the facts about square `t` into play
            }
            if self.checked_along(k, d) {
                let t = choose|t: int|
                    clear_path(d, k, t, self.occupied()) && slider_for(d, self.at(t), self.spec_active().spec_opposite());
                assert(hits.has(t));
            }
        }
        if !hits.is_empty() {
            return (true, attacks);
        }
        let friendly_hits = attacks.and(friendly);
        proof {
            lemma_nonzero(friendly_hits);
            if friendly_hits.0 != 0 {
                let t = choose|t: int| friendly_hits.has(t);
                assert(self.at(t) == self.at(t));  // brings the facts about square `t` into play
            }
            if exists|f: int| #![trigger self.at(f)]
                clear_path(d, k, f, self.occupied()) && (self.at(f) matches Some((_, c)) && c == self.spec_active()) {
                let f = choose|f: int| #![trigger self.at(f)]
                    clear_path(d, k, f, self.occupied()) && (self.at(f) matches Some((_, c)) && c == self.spec_active());
                assert(friendly_hits.has(f));
            }
        }
        if friendly_hits.is_empty() {
            let r = Bitboard(0);
            return (false, r);
        }
        let lifted = all.without(attacks);
        let through = sliding_attacks(d, king, lifted);
        proof {
            let occ2 = self.occupied().difference(self.first_ray(k, d));
            assert forall|u: int| is_square(u) implies #[trigger] occ2.contains(u) == bit(lifted.0, u as u64) by {
                assert(attacks.has(u) == clear_path(d, k, u, self.occupied()));
                assert(self.occupied().contains(u) == bit(all.0, u as u64));
            }
            assert forall|t: int| #[trigger] through.has(t) == self.through(k, d, t) by {
                lemma_slides_clear(d, k, lifted.0, t, occ2);
            }
        }
        let through_hits = through.and(attackers);
        proof {
            lemma_nonzero(through_hits);
            if through_hits.0 != 0 {
                let t = choose|t: int| through_hits.has(t);
                assert(self.at(t) == self.at(t));  // brings the facts about square `t` into play
            }
            if exists|g: int| #![trigger self.at(g)]
                self.through(k, d, g) && slider_for(d, self.at(g), self.spec_active().spec_opposite()) {
                let g = choose|g: int| #![trigger self.at(g)]
                    self.through(k, d, g) && slider_for(d, self.at(g), self.spec_active().spec_opposite());
                assert(through_hits.has(g));
            }
        }
        if through_hits.is_empty() {
            let r = Bitboard(0);
            return (false, r);
        }
        (false, through)
    }
}

/// The pins on the king of the side to move, by direction.
#[derive(Debug)]
struct Pins {
    pub any: Bitboard,
    northwest: Bitboard,
    northeast: Bitboard,
    southwest: Bitboard,
    southeast: Bitboard,
    north: Bitboard,
    south: Bitboard,
    east: Bitboard,
    west: Bitboard,
}

impl Pins {
    /// The pin squares along a direction.
    spec fn ray(&self, d: Direction) -> Bitboard {
        match d {
            Direction::North => self.north,
            Direction::South => self.south,
            Direction::East => self.east,
            Direction::West => self.west,
            Direction::NorthEast => self.northeast,
            Direction::NorthWest => self.northwest,
            Direction::SouthEast => self.southeast,
            Direction::SouthWest => self.southwest,
        }
    }

    /// Each direction's squares lie on that ray from `k`, and `any` is their
    /// union.
    spec fn shaped(&self, k: int) -> bool {
        &&& forall|d: Direction, t: int| #[trigger] self.ray(d).has(t) ==> on_ray(d, k, t)
        &&& forall|t: int| #[trigger] self.any.has(t) == exists|d: Direction| #[trigger] self.ray(d).has(t)
    }

    /// The pins of `b` on the king on `k`.
    spec fn describe(&self, b: Board, k: int) -> bool {
        &&& self.shaped(k)
        &&& forall|d: Direction, t: int|
            #[trigger] self.ray(d).has(t) == (b.pinned_along(k, d) && b.through(k, d, t))
    }

    /// Replaces the pin squares along one direction.
    fn set_ray(&mut self, d: Direction, ray: Bitboard)
        ensures
            final(self).ray(d) == ray,
            forall|e: Direction| e != d ==> #[trigger] final(self).ray(e) == old(self).ray(e),
            final(self).any == old(self).any,
    {
        match d {
            Direction::North => self.north = ray,
            Direction::South => self.south = ray,
            Direction::East => self.east = ray,
            Direction::West => self.west = ray,
            Direction::NorthEast => self.northeast = ray,
            Direction::NorthWest => self.northwest = ray,
            Direction::SouthEast => self.southeast = ray,
            Direction::SouthWest => self.southwest = ray,
        }
    }

    /// The destinations of a piece on `source`, kept to the pin ray that
    /// holds `source`, if any.
    fn restrict_moves(&self, source: usize, destinations: Bitboard, Ghost(k): Ghost<int>) -> (r: Bitboard)
        requires
            self.shaped(k),
            source < 64,
        ensures
            forall|t: int|
                #[trigger] r.has(t) == (destinations.has(t) && forall|d: Direction|
                    #[trigger] self.ray(d).has(source as int) ==> self.ray(d).has(t)),
    {
        let ghost src = source as int;
        proof {
            assert forall|d: Direction, e: Direction|
                #[trigger] self.ray(d).has(src) && #[trigger] self.ray(e).has(src) implies d == e by {
                lemma_ray_unique(d, e, k, src);
            }
        }
        if !self.any.contains(source) {
            return destinations;
        }
        if self.northwest.contains(source) {
            proof {
                assert(self.ray(Direction::NorthWest).has(src));
            }
            return destinations.and(self.northwest);
        }
        if self.northeast.contains(source) {
            proof {
                assert(self.ray(Direction::NorthEast).has(src));
            }
            return destinations.and(self.northeast);
        }
        if self.southwest.contains(source) {
            proof {
                assert(self.ray(Direction::SouthWest).has(src));
            }
            return destinations.and(self.southwest);
        }
        if self.southeast.contains(source) {
            proof {
                assert(self.ray(Direction::SouthEast).has(src));
            }
            return destinations.and(self.southeast);
        }
        if self.north.contains(source) {
            proof {
                assert(self.ray(Direction::North).has(src));
            }
            return destinations.and(self.north);
        }
        if self.south.contains(source) {
            proof {
                assert(self.ray(Direction::South).has(src));
            }
            return destinations.and(self.south);
        }
        if self.east.contains(source) {
            proof {
                assert(self.ray(Direction::East).has(src));
            }
            return destinations.and(self.east);
        }
        if self.west.contains(source) {
            proof {
                assert(self.ray(Direction::West).has(src));
            }
            return destinations.and(self.west);
        }
        proof {
            let d = choose|d: Direction| #[trigger] self.ray(d).has(src);
            assert(self.ray(d).has(src));
            assert(false);
        }
        destinations
    }
}


impl Board {
    /// The square of the king of the side to move.
    fn own_king(&self) -> (r: usize)
        requires
            self.placement_ok(),
            self.one_king(self.spec_active()),
        ensures
            r < 64,
            r as int == self.king_sq(self.spec_active()),
    {
        let ghost x = self.spec_active();
        proof {
            let k = self.king_sq(x);
            self.lemma_spec_pieces(PieceType::King, x, k);
            lemma_nonzero(self.spec_pieces(PieceType::King, x));
        }
        let r = self.king_index(self.active_color());
        proof {
            self.lemma_spec_pieces(PieceType::King, x, r as int);
            assert(self.at(r as int) == Some((PieceType::King, x)));
            assert(self.at(self.king_sq(x)) == Some((PieceType::King, x)));
        }
        r
    }

    /// Scans one direction from the king and adds what it finds to the
    /// check count, the blocking squares and the pins.
    fn absorb_ray(
        &self,
        d: Direction,
        king: usize,
        all: Bitboard,
        friendly: Bitboard,
        attackers: Bitboard,
        num_checks: &mut usize,
        blocks: &mut Bitboard,
        pins: &mut Pins,
    )
        requires
            self.placement_ok(),
            king < 64,
            all == Bitboard(self.color_bb(0).0 | self.color_bb(1).0),
            forall|t: int|
                #[trigger] friendly.has(t) == (is_square(t) && (self.at(t) matches Some((_, c)) && c
                    == self.spec_active())),
            forall|t: int|
                #[trigger] attackers.has(t) == (is_square(t) && slider_for(
                    d,
                    self.at(t),
                    self.spec_active().spec_opposite(),
                )),
            *old(num_checks) < 8,
        ensures
            *final(num_checks) == *old(num_checks) + if self.checked_along(king as int, d) { 1int } else { 0 },
            forall|t: int|
                #[trigger] final(blocks).has(t) == (old(blocks).has(t) || (self.checked_along(king as int, d)
                    && clear_path(d, king as int, t, self.occupied()))),
            forall|e: Direction| e != d ==> #[trigger] final(pins).ray(e) == old(pins).ray(e),
            forall|t: int|
                #[trigger] final(pins).ray(d).has(t) == (self.pinned_along(king as int, d) && self.through(
                    king as int,
                    d,
                    t,
                )),
            forall|t: int| #[trigger] final(pins).any.has(t) == (old(pins).any.has(t) || final(pins).ray(d).has(t)),
    {
        let (checked, ray) = self.scan_ray(d, king, all, friendly, attackers);
        if checked {
            *num_checks = *num_checks + 1;
            *blocks = blocks.or(ray);
            pins.set_ray(d, Bitboard(0));
        } else {
            pins.any = pins.any.or(ray);
            pins.set_ray(d, ray);
        }
    }

    /// Counts the checks on the king of the side to move, collects the squares
    /// that block or capture them, and finds the pinned pieces.
    #[verifier::rlimit(100)]
    #[verifier::spinoff_prover]
    fn calculate_checks_and_pins(&self) -> (r: (usize, Bitboard, Pins))
        requires
            self.placement_ok(),
            self.one_king(self.spec_active()),
        ensures
            r.0 == self.check_count(self.king_sq(self.spec_active())),
            forall|t: int| #[trigger] r.1.has(t) == self.blocks_check(self.king_sq(self.spec_active()), t),
            r.2.describe(*self, self.king_sq(self.spec_active())),
    {
        let opponent = self.active_color().opposite();
        let enemy_pawns = self.pawns(opponent);
        let enemy_knights = self.knights(opponent);
        let diagonal_attackers = self.bishops(opponent).or(self.queens(opponent));
        let straight_attackers = self.rooks(opponent).or(self.queens(opponent));
        let king_index = self.own_king();
        let all_pieces = self.all_pieces();
        let friendly_pieces = self.pieces_of_color(self.active_color());
        let ghost k = king_index as int;
        let ghost x = self.spec_active();
        let ghost y = x.spec_opposite();
        proof {
            self.lemma_occupied_word();
            assert forall|t: int|
                #[trigger] diagonal_attackers.has(t) == (is_square(t) && slider_for(Direction::NorthEast, self.at(t), y)) by {
                self.lemma_spec_pieces(PieceType::Bishop, y, t);
                self.lemma_spec_pieces(PieceType::Queen, y, t);
            }
            assert forall|t: int|
                #[trigger] straight_attackers.has(t) == (is_square(t) && slider_for(Direction::North, self.at(t), y)) by {
                self.lemma_spec_pieces(PieceType::Rook, y, t);
                self.lemma_spec_pieces(PieceType::Queen, y, t);
            }
        }
        let mut num_checks: usize = 0;
        let mut blocks = Bitboard(0);
        let mut pins = Pins {
            any: Bitboard(0),
            northwest: Bitboard(0),
            northeast: Bitboard(0),
            southwest: Bitboard(0),
            southeast: Bitboard(0),
            north: Bitboard(0),
            south: Bitboard(0),
            east: Bitboard(0),
            west: Bitboard(0),
        };
        self.absorb_ray(Direction::NorthEast, king_index, all_pieces, friendly_pieces, diagonal_attackers, &mut num_checks, &mut blocks, &mut pins);
        self.absorb_ray(Direction::NorthWest, king_index, all_pieces, friendly_pieces, diagonal_attackers, &mut num_checks, &mut blocks, &mut pins);
        self.absorb_ray(Direction::SouthEast, king_index, all_pieces, friendly_pieces, diagonal_attackers, &mut num_checks, &mut blocks, &mut pins);
        self.absorb_ray(Direction::SouthWest, king_index, all_pieces, friendly_pieces, diagonal_attackers, &mut num_checks, &mut blocks, &mut pins);
        self.absorb_ray(Direction::North, king_index, all_pieces, friendly_pieces, straight_attackers, &mut num_checks, &mut blocks, &mut pins);
        self.absorb_ray(Direction::South, king_index, all_pieces, friendly_pieces, straight_attackers, &mut num_checks, &mut blocks, &mut pins);
        self.absorb_ray(Direction::East, king_index, all_pieces, friendly_pieces, straight_attackers, &mut num_checks, &mut blocks, &mut pins);
        self.absorb_ray(Direction::West, king_index, all_pieces, friendly_pieces, straight_attackers, &mut num_checks, &mut blocks, &mut pins);
        let knight_attackers = knight_attacks(king_index).and(enemy_knights);
        proof {
            assert forall|t: int| #[trigger] knight_attackers.has(t) == self.knight_checker(k, t) by {
                self.lemma_spec_pieces(PieceType::Knight, y, t);
            }
            lemma_nonzero(knight_attackers);
            if exists|t: int| #[trigger] self.knight_checker(k, t) {
                let t = choose|t: int| #[trigger] self.knight_checker(k, t);
                assert(knight_attackers.has(t));
            }
        }
        if !knight_attackers.is_empty() {
            num_checks += 1;
            blocks = blocks.or(knight_attackers);
        }
        let pawn_attackers = pawn_attacks(self.active_color().index(), king_index).and(enemy_pawns);
        proof {
            assert forall|t: int| #[trigger] pawn_attackers.has(t) == self.pawn_checker(k, t) by {
                self.lemma_spec_pieces(PieceType::Pawn, y, t);
            }
            lemma_nonzero(pawn_attackers);
            if exists|t: int| #[trigger] self.pawn_checker(k, t) {
                let t = choose|t: int| #[trigger] self.pawn_checker(k, t);
                assert(pawn_attackers.has(t));
            }
        }
        if !pawn_attackers.is_empty() {
            num_checks += 1;
            blocks = blocks.or(pawn_attackers);
        }
        proof {
            assert forall|t: int| #[trigger] blocks.has(t) == self.blocks_check(k, t) by {
                assert(blocks.has(t) == ((self.checked_along(k, Direction::NorthEast) && clear_path(Direction::NorthEast, k, t, self.occupied())) || (self.checked_along(k, Direction::NorthWest) && clear_path(Direction::NorthWest, k, t, self.occupied())) || (self.checked_along(k, Direction::SouthEast) && clear_path(Direction::SouthEast, k, t, self.occupied())) || (self.checked_along(k, Direction::SouthWest) && clear_path(Direction::SouthWest, k, t, self.occupied())) || (self.checked_along(k, Direction::North) && clear_path(Direction::North, k, t, self.occupied())) || (self.checked_along(k, Direction::South) && clear_path(Direction::South, k, t, self.occupied())) || (self.checked_along(k, Direction::East) && clear_path(Direction::East, k, t, self.occupied())) || (self.checked_along(k, Direction::West) && clear_path(Direction::West, k, t, self.occupied())) || knight_attackers.has(t) || pawn_attackers.has(t)));
                if exists|d: Direction| #[trigger] self.checked_along(k, d) && clear_path(d, k, t, self.occupied()) {
                    let d = choose|d: Direction| #[trigger] self.checked_along(k, d) && clear_path(d, k, t, self.occupied());
                    match d {
                        Direction::North => {},
                        Direction::South => {},
                        Direction::East => {},
                        Direction::West => {},
                        Direction::NorthEast => {},
                        Direction::NorthWest => {},
                        Direction::SouthEast => {},
                        Direction::SouthWest => {},
                    }
                }
            }
            assert forall|t: int| #[trigger] pins.any.has(t) == exists|d: Direction| #[trigger] pins.ray(d).has(t) by {
                assert(pins.any.has(t) == (pins.ray(Direction::NorthEast).has(t) || pins.ray(Direction::NorthWest).has(t) || pins.ray(Direction::SouthEast).has(t) || pins.ray(Direction::SouthWest).has(t) || pins.ray(Direction::North).has(t) || pins.ray(Direction::South).has(t) || pins.ray(Direction::East).has(t) || pins.ray(Direction::West).has(t)));
                if exists|d: Direction| #[trigger] pins.ray(d).has(t) {
                    let d = choose|d: Direction| #[trigger] pins.ray(d).has(t);
                    match d {
                        Direction::North => {},
                        Direction::South => {},
                        Direction::East => {},
                        Direction::West => {},
                        Direction::NorthEast => {},
                        Direction::NorthWest => {},
                        Direction::SouthEast => {},
                        Direction::SouthWest => {},
                    }
                }
                if pins.any.has(t) {
                    // the pin rays that make up the pinned squares
                    assert(pins.ray(Direction::NorthEast).has(t) || pins.ray(Direction::NorthWest).has(t)
                        || pins.ray(Direction::SouthEast).has(t) || pins.ray(Direction::SouthWest).has(t)
                        || pins.ray(Direction::North).has(t) || pins.ray(Direction::South).has(t)
                        || pins.ray(Direction::East).has(t) || pins.ray(Direction::West).has(t));
                }
            }
            assert forall|d: Direction, t: int|
                #[trigger] pins.ray(d).has(t) == (self.pinned_along(k, d) && self.through(k, d, t)) by {
                match d {
                    Direction::North => {},
                    Direction::South => {},
                    Direction::East => {},
                    Direction::West => {},
                    Direction::NorthEast => {},
                    Direction::NorthWest => {},
                    Direction::SouthEast => {},
                    Direction::SouthWest => {},
                }
            }
            assert forall|d: Direction, t: int| #[trigger] pins.ray(d).has(t) implies on_ray(d, k, t) by {
                assert(self.through(k, d, t));
            }
        }
        (num_checks, blocks, pins)
    }
}


impl Board {
    /// `mv` follows the rules of movement for the side to move, leaving aside
    /// whether its own king is attacked afterwards.
    pub open spec fn follows_rules(&self, mv: Move) -> bool {
        let from = mv.from as int;
        let to = mv.to as int;
        let x = self.spec_active();
        let y = x.spec_opposite();
        &&& is_square(from)
        &&& is_square(to)
        &&& match mv.move_type {
            MoveType::Regular => match self.at(from) {
                Some((p, c)) => c == x && if p == PieceType::Pawn {
                    self.pawn_move_ok(from, to) && !back_rank(to)
                } else {
                    self.piece_move_ok(p, from, to)
                },
                None => false,
            },
            MoveType::Promotion(q) => {
                &&& self.at(from) == Some((PieceType::Pawn, x))
                &&& self.pawn_move_ok(from, to)
                &&& back_rank(to)
                &&& q != PieceType::Pawn
                &&& q != PieceType::King
            },
            MoveType::EnPassant(t) => {
                &&& self.at(from) == Some((PieceType::Pawn, x))
                &&& self.meta().en_passant_square == Some(mv.to)
                &&& pawn_attack(x.spec_index(), from, to)
                &&& t as int == 8 * rank_of(from) + file_of(to)
            },
            MoveType::Castling(kingside) => {
                &&& self.at(from) == Some((PieceType::King, x))
                &&& self.meta().castling_rights.spec_has(kingside, x)
                &&& !attacked(self.placement(), from, y)
                &&& if kingside {
                    &&& to == from + 2
                    &&& self.at(from + 1) is None
                    &&& self.at(from + 2) is None
                    &&& !attacked(self.ignoring_king(), from + 1, y)
                    &&& !attacked(self.ignoring_king(), from + 2, y)
                } else {
                    &&& to == from - 2
                    &&& self.at(from - 1) is None
                    &&& self.at(from - 2) is None
                    &&& self.at(from - 3) is None
                    &&& !attacked(self.ignoring_king(), from - 1, y)
                    &&& !attacked(self.ignoring_king(), from - 2, y)
                }
            },
        }
    }

    /// `mv` is legal: it follows the rules of movement and does not leave the
    /// mover's king attacked.
    pub open spec fn is_legal(&self, mv: Move) -> bool {
        self.follows_rules(mv) && !in_check(self.after(mv), self.spec_active())
    }

    /// A position the move generator handles: valid, with one king of each
    /// color, the kings not next to each other, and the king of the side to
    /// move attacked by at most one knight and at most one pawn.
    pub open spec fn playable_position(&self) -> bool {
        let k = self.king_sq(self.spec_active());
        &&& self.valid()
        &&& self.one_king(Color::White)
        &&& self.one_king(Color::Black)
        &&& !king_step(self.king_sq(Color::White), self.king_sq(Color::Black))
        &&& forall|a: int, b: int|
            #![trigger self.knight_checker(k, a), self.knight_checker(k, b)]
            self.knight_checker(k, a) && self.knight_checker(k, b) ==> a == b
        &&& forall|a: int, b: int|
            #![trigger self.pawn_checker(k, a), self.pawn_checker(k, b)]
            self.pawn_checker(k, a) && self.pawn_checker(k, b) ==> a == b
    }

    /// A position that play can reach: a position the move generator
    /// handles, with the side not to move not in check.
    pub open spec fn legal_position(&self) -> bool {
        &&& self.playable_position()
        &&& !in_check(self.placement(), self.spec_active().spec_opposite())
    }

    /// An attack, read from the attacked square.
    pub(crate) proof fn lemma_attack_cases(&self, q: PieceType, s: int, k: int, occ: Set<int>)
        requires
            attacks_square(q, self.spec_active().spec_opposite(), s, k, occ),
        ensures
            q == PieceType::Pawn ==> pawn_attack(self.spec_active().spec_index(), k, s),
            q == PieceType::Knight ==> knight_step(k, s),
            q == PieceType::King ==> king_step(k, s),
            (q == PieceType::Bishop || q == PieceType::Rook || q == PieceType::Queen) ==> exists|e: Direction|
                clear_path(e, k, s, occ) && #[trigger] slider_for(
                    e,
                    Some((q, self.spec_active().spec_opposite())),
                    self.spec_active().spec_opposite(),
                ),
    {
        let x = self.spec_active();
        let y = x.spec_opposite();
        lemma_pawn_attack_reverse(x, k, s);
        lemma_step_reverse(k, s);
        if q == PieceType::Bishop || q == PieceType::Rook || q == PieceType::Queen {
            let dirs = seq![
                Direction::NorthEast,
                Direction::NorthWest,
                Direction::SouthEast,
                Direction::SouthWest,
                Direction::North,
                Direction::South,
                Direction::East,
                Direction::West,
            ];
            assert forall|i: int| 0 <= i < 8 && clear_path(#[trigger] dirs[i], s, k, occ) implies clear_path(
                reverse(dirs[i]),
                k,
                s,
                occ,
            ) by {
                lemma_clear_reverse(dirs[i], s, k, occ);
                lemma_clear_reverse(reverse(dirs[i]), k, s, occ);
            }
            let z = Some((q, y));
            if (q == PieceType::Bishop || q == PieceType::Queen) && diagonal_reach(s, k, occ) {
                if clear_path(Direction::NorthEast, s, k, occ) {
                    assert(clear_path(dirs[0], s, k, occ));
                    assert(slider_for(reverse(dirs[0]), z, y));
                } else if clear_path(Direction::NorthWest, s, k, occ) {
                    assert(clear_path(dirs[1], s, k, occ));
                    assert(slider_for(reverse(dirs[1]), z, y));
                } else if clear_path(Direction::SouthEast, s, k, occ) {
                    assert(clear_path(dirs[2], s, k, occ));
                    assert(slider_for(reverse(dirs[2]), z, y));
                } else {
                    assert(clear_path(dirs[3], s, k, occ));
                    assert(slider_for(reverse(dirs[3]), z, y));
                }
            } else {
                if clear_path(Direction::North, s, k, occ) {
                    assert(clear_path(dirs[4], s, k, occ));
                    assert(slider_for(reverse(dirs[4]), z, y));
                } else if clear_path(Direction::South, s, k, occ) {
                    assert(clear_path(dirs[5], s, k, occ));
                    assert(slider_for(reverse(dirs[5]), z, y));
                } else if clear_path(Direction::East, s, k, occ) {
                    assert(clear_path(dirs[6], s, k, occ));
                    assert(slider_for(reverse(dirs[6]), z, y));
                } else {
                    assert(clear_path(dirs[7], s, k, occ));
                    assert(slider_for(reverse(dirs[7]), z, y));
                }
            }
        }
    }

    /// With no check counted, the king of the side to move is not attacked.
    pub(crate) proof fn lemma_no_check(&self)
        requires
            self.playable_position(),
            self.check_count(self.king_sq(self.spec_active())) == 0,
        ensures
            !attacked(self.placement(), self.king_sq(self.spec_active()), self.spec_active().spec_opposite()),
    {
        let x = self.spec_active();
        let y = x.spec_opposite();
        let k = self.king_sq(x);
        let place = self.placement();
        if attacked(place, k, y) {
            let s = choose|s: int|
                is_square(s) && (place(s) matches Some((p, c)) && c == y && attacks_square(
                    p,
                    c,
                    s,
                    k,
                    occupancy(place),
                ));
            let q = self.at(s).unwrap().0;
            self.lemma_attack_cases(q, s, k, self.occupied());
            if q == PieceType::Pawn {
                assert(self.pawn_checker(k, s));
            } else if q == PieceType::Knight {
                assert(self.knight_checker(k, s));
            } else if q == PieceType::King {
                self.lemma_kings_apart(s);
            } else {
                let e = choose|e: Direction|
                    clear_path(e, k, s, self.occupied()) && #[trigger] slider_for(e, Some((q, y)), y);
                assert(self.checked_along(k, e));
                match e {
                    Direction::North => {},
                    Direction::South => {},
                    Direction::East => {},
                    Direction::West => {},
                    Direction::NorthEast => {},
                    Direction::NorthWest => {},
                    Direction::SouthEast => {},
                    Direction::SouthWest => {},
                }
            }
        }
    }

    /// In a position the generator handles, the kings are not next to each
    /// other.
    pub(crate) proof fn lemma_kings_apart(&self, s: int)
        requires
            self.playable_position(),
            is_square(s),
            self.at(s) == Some((PieceType::King, self.spec_active().spec_opposite())),
        ensures
            !king_step(s, self.king_sq(self.spec_active())),
    {
        let x = self.spec_active();
        let y = x.spec_opposite();
        assert(self.at(self.king_sq(y)) == Some((PieceType::King, y)));
        assert(self.at(self.king_sq(x)) == Some((PieceType::King, x)));
        assert(s == self.king_sq(y));
        lemma_step_reverse(self.king_sq(Color::White), self.king_sq(Color::Black));
    }

    /// When the side not to move is not in check, the kings are not next to
    /// each other.
    pub(crate) proof fn lemma_apart_of_no_check(&self)
        requires
            self.one_king(Color::White),
            self.one_king(Color::Black),
            !in_check(self.placement(), self.spec_active().spec_opposite()),
        ensures
            !king_step(self.king_sq(Color::White), self.king_sq(Color::Black)),
    {
        let x = self.spec_active();
        let y = x.spec_opposite();
        let k = self.king_sq(x);
        let s = self.king_sq(y);
        assert(self.at(k) == Some((PieceType::King, x)));
        assert(self.at(s) == Some((PieceType::King, y)));
        if king_step(s, k) {
            lemma_step_reverse(s, k);
            let place = self.placement();
            assert(place(k) == Some((PieceType::King, x)));
            assert(attacks_square(PieceType::King, x, k, s, occupancy(place)));
            assert(attacked(place, s, x));
            assert(place(s) == Some((PieceType::King, y)));
            assert(y.spec_opposite() == x);
            assert(in_check(place, y));
        }
        lemma_step_reverse(s, k);
        match x {
            Color::White => {},
            Color::Black => {},
        }
    }
}


impl Board {
    /// Two distinct checking directions make two checks.
    pub(crate) proof fn lemma_two_directions(&self, k: int, d: Direction, e: Direction)
        requires
            self.checked_along(k, d),
            self.checked_along(k, e),
            d != e,
        ensures
            self.check_count(k) >= 2,
    {
        match d {
            Direction::North => {},
            Direction::South => {},
            Direction::East => {},
            Direction::West => {},
            Direction::NorthEast => {},
            Direction::NorthWest => {},
            Direction::SouthEast => {},
            Direction::SouthWest => {},
        }
    }

    /// A checking direction counts as a check.
    pub(crate) proof fn lemma_one_direction(&self, k: int, d: Direction)
        requires
            self.checked_along(k, d),
        ensures
            self.check_count(k) >= 1 + (if exists|a: int| #[trigger] self.knight_checker(k, a) { 1int } else { 0 })
                + (if exists|a: int| #[trigger] self.pawn_checker(k, a) { 1int } else { 0 }),
    {
        match d {
            Direction::North => {},
            Direction::South => {},
            Direction::East => {},
            Direction::West => {},
            Direction::NorthEast => {},
            Direction::NorthWest => {},
            Direction::SouthEast => {},
            Direction::SouthWest => {},
        }
    }

    /// With exactly one check, a square that blocks or captures a check
    /// blocks or captures that one.
    pub(crate) proof fn lemma_count_one(&self, k: int, t: int)
        requires
            self.check_count(k) == 1,
            self.blocks_check(k, t),
        ensures
            (exists|a: int| #[trigger] self.pawn_checker(k, a)) ==> self.pawn_checker(k, t),
            (exists|a: int| #[trigger] self.knight_checker(k, a)) ==> self.knight_checker(k, t),
            forall|e: Direction| #[trigger] self.checked_along(k, e) ==> clear_path(e, k, t, self.occupied()),
    {
        if exists|d: Direction| #[trigger] self.checked_along(k, d) && clear_path(d, k, t, self.occupied()) {
            let d = choose|d: Direction| #[trigger] self.checked_along(k, d) && clear_path(d, k, t, self.occupied());
            self.lemma_one_direction(k, d);
            assert forall|e: Direction| #[trigger] self.checked_along(k, e) implies clear_path(e, k, t, self.occupied()) by {
                if e != d {
                    self.lemma_two_directions(k, d, e);
                }
            }
        } else if self.knight_checker(k, t) {
            assert forall|e: Direction| #[trigger] self.checked_along(k, e) implies clear_path(e, k, t, self.occupied()) by {
                self.lemma_one_direction(k, e);
            }
        } else {
            assert(self.pawn_checker(k, t));
            assert forall|e: Direction| #[trigger] self.checked_along(k, e) implies clear_path(e, k, t, self.occupied()) by {
                self.lemma_one_direction(k, e);
            }
        }
    }
}


impl Board {
    /// The king square of the side to move holds its king.
    pub(crate) proof fn lemma_king_sq(&self, c: Color)
        requires
            self.one_king(c),
        ensures
            is_square(self.king_sq(c)),
            self.at(self.king_sq(c)) == Some((PieceType::King, c)),
            forall|a: int| is_square(a) && #[trigger] self.at(a) == Some((PieceType::King, c)) ==> a == self.king_sq(c),
    {
        let k = self.king_sq(c);
        assert(is_square(k) && self.at(k) == Some((PieceType::King, c)));
    }

    /// A move of a piece other than the king that lands on a square blocking
    /// or capturing the only check, if there is one, and that keeps a pinned
    /// piece on its pin ray, leaves its king unattacked.
    proof fn lemma_piece_move_safe(&self, mv: Move)
        requires
            self.playable_position(),
            mv.move_type is Regular || mv.move_type is Promotion,
            is_square(mv.from as int),
            is_square(mv.to as int),
            mv.from != mv.to,
            self.at(mv.from as int) matches Some((p, c)) && c == self.spec_active() && p != PieceType::King,
            mv.move_type matches MoveType::Promotion(q) ==> q != PieceType::King,
            self.lands_ok(mv.to as int),
            self.check_count(self.king_sq(self.spec_active())) == 0 || (self.check_count(
                self.king_sq(self.spec_active()),
            ) == 1 && self.blocks_check(self.king_sq(self.spec_active()), mv.to as int)),
            forall|d: Direction|
                self.pinned_along(self.king_sq(self.spec_active()), d) && #[trigger] self.through(
                    self.king_sq(self.spec_active()),
                    d,
                    mv.from as int,
                ) ==> self.through(self.king_sq(self.spec_active()), d, mv.to as int),
        ensures
            !in_check(self.after(mv), self.spec_active()),
    {
        let x = self.spec_active();
        let y = x.spec_opposite();
        let k = self.king_sq(x);
        let src = mv.from as int;
        let dst = mv.to as int;
        let after = self.after(mv);
        let o = self.occupied();
        let o1 = occupancy(after);
        if x == Color::White {
            self.lemma_king_sq(Color::White);
        } else {
            self.lemma_king_sq(Color::Black);
        }
        if in_check(after, x) {
            let kk = choose|kk: int|
                #![trigger after(kk)]
                is_square(kk) && after(kk) == Some((PieceType::King, x)) && attacked(after, kk, y);
            assert(kk != dst);
            assert(kk != src);
            assert(self.at(kk) == Some((PieceType::King, x)));
            assert(kk == k);
            let s = choose|s: int|
                #![trigger after(s)]
                is_square(s) && (after(s) matches Some((q, c)) && c == y && attacks_square(q, c, s, kk, o1));
            assert(s != dst);
            assert(s != src);
            let q = self.at(s).unwrap().0;
            assert(self.at(s) == Some((q, y)));
            assert forall|u: int| #[trigger] o1.contains(u) == (is_square(u) && (u == dst || (u != src && o.contains(u)))) by {}
            self.lemma_attack_cases(q, s, k, o1);
            if q == PieceType::Pawn {
                assert(self.pawn_checker(k, s));
                if self.check_count(k) == 1 {
                    self.lemma_count_one(k, dst);
                    assert(self.pawn_checker(k, dst));
                }
            } else if q == PieceType::Knight {
                assert(self.knight_checker(k, s));
                if self.check_count(k) == 1 {
                    self.lemma_count_one(k, dst);
                    assert(self.knight_checker(k, dst));
                }
            } else if q == PieceType::King {
                self.lemma_kings_apart(s);
                lemma_step_reverse(s, k);
            } else {
                let e = choose|e: Direction| clear_path(e, k, s, o1) && #[trigger] slider_for(e, Some((q, y)), y);
                assert(slider_for(e, self.at(s), y));
                if clear_path(e, k, s, o) {
                    assert(self.checked_along(k, e));
                    self.lemma_one_direction(k, e);
                    self.lemma_count_one(k, dst);
                    assert(clear_path(e, k, dst, o));
                    lemma_ray_total(e, k, dst, s);
                    if crate::attacks::before(e, s, dst) {
                        assert(o.contains(s));
                    } else {
                        assert(o1.contains(dst));
                    }
                } else {
                    let u = choose|u: int| on_ray(e, k, u) && crate::attacks::before(e, u, s) && o.contains(u);
                    assert(!o1.contains(u));
                    assert(u == src);
                    lemma_ray_total(e, k, src, s);
                    // the moving piece is the first piece along `e`
                    assert forall|w: int| on_ray(e, k, w) && crate::attacks::before(e, w, src) implies !o.contains(w) by {
                        lemma_ray_total(e, k, w, s);
                        assert(!o1.contains(w));
                    }
                    assert(clear_path(e, k, src, o));
                    assert(self.first_ray(k, e).contains(src));
                    // no check along `e`
                    if self.checked_along(k, e) {
                        let t = choose|t: int|
                            #![trigger self.at(t)]
                            clear_path(e, k, t, o) && slider_for(e, self.at(t), y);
                        lemma_ray_total(e, k, t, src);
                        if t == src {
                        } else if crate::attacks::before(e, t, src) {
                            assert(o.contains(t));
                        } else {
                            assert(o.contains(src));
                        }
                    }
                    // the checking slider is the second piece along `e`
                    let o2 = o.difference(self.first_ray(k, e));
                    assert forall|w: int| on_ray(e, k, w) && crate::attacks::before(e, w, s) implies !o2.contains(w) by {
                        if w != src {
                            assert(!o1.contains(w));
                        }
                    }
                    assert(self.through(k, e, s));
                    assert(self.pinned_along(k, e));
                    assert forall|w: int| on_ray(e, k, w) && crate::attacks::before(e, w, src) implies !o2.contains(w) by {
                        assert(!o.contains(w));
                    }
                    assert(self.through(k, e, src));
                    assert(self.through(k, e, dst));
                    lemma_ray_total(e, k, dst, s);
                    if crate::attacks::before(e, s, dst) {
                        assert(!self.first_ray(k, e).contains(s));
                        assert(o2.contains(s));
                    } else if dst != s {
                        assert(o1.contains(dst));
                    }
                }
            }
        }
    }
}


/// A slider's attack survives when the squares it passes are no more
/// occupied.
pub(crate) proof fn lemma_attack_mono(q: PieceType, c: Color, s: int, t: int, a: Set<int>, b: Set<int>)
    requires
        attacks_square(q, c, s, t, a),
        forall|d: Direction, u: int|
            #![trigger on_ray(d, s, u), b.contains(u)]
            on_ray(d, s, t) && on_ray(d, s, u) && crate::attacks::before(d, u, t) && b.contains(u) ==> a.contains(u),
    ensures
        attacks_square(q, c, s, t, b),
{
    assert forall|d: Direction| #[trigger] clear_path(d, s, t, a) implies clear_path(d, s, t, b) by {
        assert forall|u: int| on_ray(d, s, u) && crate::attacks::before(d, u, t) implies !b.contains(u) by {
            if b.contains(u) {
                assert(a.contains(u));
            }
        }
    }
}

impl Board {
    /// A king step onto a square that no piece of the other side attacks,
    /// with the king lifted off, leaves the king unattacked.
    proof fn lemma_king_move_safe(&self, mv: Move)
        requires
            self.playable_position(),
            mv.move_type is Regular,
            mv.from as int == self.king_sq(self.spec_active()),
            is_square(mv.to as int),
            mv.from != mv.to,
            self.lands_ok(mv.to as int),
            !attacked(self.ignoring_king(), mv.to as int, self.spec_active().spec_opposite()),
        ensures
            !in_check(self.after(mv), self.spec_active()),
    {
        let x = self.spec_active();
        let y = x.spec_opposite();
        let k = self.king_sq(x);
        let src = mv.from as int;
        let dst = mv.to as int;
        let after = self.after(mv);
        let o1 = occupancy(after);
        let place = self.ignoring_king();
        let o2 = occupancy(place);
        if x == Color::White {
            self.lemma_king_sq(Color::White);
        } else {
            self.lemma_king_sq(Color::Black);
        }
        if in_check(after, x) {
            let kk = choose|kk: int|
                #![trigger after(kk)]
                is_square(kk) && after(kk) == Some((PieceType::King, x)) && attacked(after, kk, y);
            if kk != dst {
                assert(self.at(kk) == Some((PieceType::King, x)));
            }
            assert(kk == dst);
            let s = choose|s: int|
                #![trigger after(s)]
                is_square(s) && (after(s) matches Some((q, c)) && c == y && attacks_square(q, c, s, kk, o1));
            let q = self.at(s).unwrap().0;
            assert(self.at(s) == Some((q, y)));
            assert(place(s) == Some((q, y)));
            assert forall|d: Direction, u: int|
                #![trigger on_ray(d, s, u), o2.contains(u)]
                on_ray(d, s, dst) && on_ray(d, s, u) && crate::attacks::before(d, u, dst) && o2.contains(u)
                    implies o1.contains(u) by {
                if u == src {
                    assert(self.at(u) == Some((PieceType::King, x)));
                }
            }
            lemma_attack_mono(q, y, s, dst, o1, o2);
            assert(attacked(place, dst, y));
        }
    }

    /// Castling, with the king not in check and the squares it crosses and
    /// lands on not attacked, leaves the king unattacked.
    proof fn lemma_castle_safe(&self, mv: Move)
        requires
            self.playable_position(),
            mv.move_type is Castling,
            self.follows_rules(mv),
        ensures
            !in_check(self.after(mv), self.spec_active()),
    {
        let x = self.spec_active();
        let y = x.spec_opposite();
        let k = self.king_sq(x);
        let kingside = mv.move_type->Castling_0;
        let from = mv.from as int;
        let to = mv.to as int;
        let (rook_from, rook_to) = crate::board::castling_rook_squares(from, kingside);
        let after = self.after(mv);
        let o1 = occupancy(after);
        let place = self.ignoring_king();
        let o2 = occupancy(place);
        if x == Color::White {
            self.lemma_king_sq(Color::White);
        } else {
            self.lemma_king_sq(Color::Black);
        }
        assert(self.meta().castling_rights.spec_has(kingside, x));
        assert(self.at(crate::board::king_home(x)) == Some((PieceType::King, x)));
        assert(self.at(crate::board::rook_home(kingside, x)) == Some((PieceType::Rook, x)));
        assert(from == crate::board::king_home(x));
        assert(rook_from == crate::board::rook_home(kingside, x));
        if in_check(after, x) {
            let kk = choose|kk: int|
                #![trigger after(kk)]
                is_square(kk) && after(kk) == Some((PieceType::King, x)) && attacked(after, kk, y);
            if kk != to {
                assert(self.at(kk) == Some((PieceType::King, x)));
            }
            assert(kk == to);
            let s = choose|s: int|
                #![trigger after(s)]
                is_square(s) && (after(s) matches Some((q, c)) && c == y && attacks_square(q, c, s, kk, o1));
            let q = self.at(s).unwrap().0;
            assert(self.at(s) == Some((q, y)));
            assert(place(s) == Some((q, y)));
            assert forall|d: Direction, u: int|
                #![trigger on_ray(d, s, u), o2.contains(u)]
                on_ray(d, s, to) && on_ray(d, s, u) && crate::attacks::before(d, u, to) && o2.contains(u)
                    implies o1.contains(u) by {
                lemma_coords(s);
                lemma_coords(u);
                lemma_coords(to);
                if u == from {
                    assert(self.at(u) == Some((PieceType::King, x)));
                }
            }
            lemma_attack_mono(q, y, s, to, o1, o2);
            assert(attacked(place, to, y));
        }
    }
}


/// The square of the pawn an en passant capture removes: the rank of the
/// capturing pawn and the file of the en passant square.
proof fn lemma_target(source: usize, ep_square: usize)
    requires
        source < 64,
        ep_square < 64,
    ensures
        (source & 0b111000usize) | (ep_square & 0b111usize) == 8 * (source / 8) + ep_square % 8,
        (source & 0b111000usize) | (ep_square & 0b111usize) < 64,
{
    assert((source & 0b111000usize) | (ep_square & 0b111usize) == 8 * (source / 8) + ep_square % 8) by (bit_vector)
        requires
            source < 64,
            ep_square < 64,
    ;
}

impl Board {
    /// No slider of the other side reaches the king on `k` through the given
    /// occupancy.
    pub open spec fn no_slider_reaches(&self, k: int, occ: Set<int>) -> bool {
        let y = self.spec_active().spec_opposite();
        forall|s: int|
            #![trigger self.at(s)]
            is_square(s) ==> (((self.at(s) == Some((PieceType::Bishop, y)) || self.at(s) == Some(
                (PieceType::Queen, y),
            )) ==> !diagonal_reach(s, k, occ)) && ((self.at(s) == Some((PieceType::Rook, y)) || self.at(s)
                == Some((PieceType::Queen, y))) ==> !straight_reach(s, k, occ)))
    }

    /// An en passant capture that blocks or captures the only check, if any,
    /// and after which no slider reaches the king, leaves the king
    /// unattacked.
    proof fn lemma_en_passant_safe(&self, mv: Move)
        requires
            self.playable_position(),
            mv.move_type is EnPassant,
            self.follows_rules(mv),
            self.check_count(self.king_sq(self.spec_active())) <= 1,
            self.check_count(self.king_sq(self.spec_active())) == 0 || self.blocks_check(
                self.king_sq(self.spec_active()),
                mv.to as int,
            ) || self.blocks_check(self.king_sq(self.spec_active()), mv.move_type->EnPassant_0 as int),
            self.no_slider_reaches(self.king_sq(self.spec_active()), occupancy(self.after(mv))),
        ensures
            !in_check(self.after(mv), self.spec_active()),
    {
        let x = self.spec_active();
        let y = x.spec_opposite();
        let k = self.king_sq(x);
        let src = mv.from as int;
        let dst = mv.to as int;
        let t = mv.move_type->EnPassant_0 as int;
        let after = self.after(mv);
        let o1 = occupancy(after);
        if x == Color::White {
            self.lemma_king_sq(Color::White);
        } else {
            self.lemma_king_sq(Color::Black);
        }
        lemma_coords(src);
        lemma_coords(dst);
        assert(self.en_passant_ok(dst));
        assert(self.at(dst) is None);
        assert(t == if x == Color::White { dst - 8 } else { dst + 8 });
        assert(self.at(t) == Some((PieceType::Pawn, y)));
        if in_check(after, x) {
            let kk = choose|kk: int|
                #![trigger after(kk)]
                is_square(kk) && after(kk) == Some((PieceType::King, x)) && attacked(after, kk, y);
            assert(self.at(kk) == Some((PieceType::King, x)));
            assert(kk == k);
            let s = choose|s: int|
                #![trigger after(s)]
                is_square(s) && (after(s) matches Some((q, c)) && c == y && attacks_square(q, c, s, kk, o1));
            let q = self.at(s).unwrap().0;
            assert(self.at(s) == Some((q, y)));
            self.lemma_attack_cases(q, s, k, o1);
            if q == PieceType::Pawn {
                assert(self.pawn_checker(k, s));
                if self.blocks_check(k, dst) {
                    self.lemma_count_one(k, dst);
                } else {
                    self.lemma_count_one(k, t);
                }
            } else if q == PieceType::Knight {
                assert(self.knight_checker(k, s));
                if self.blocks_check(k, dst) {
                    self.lemma_count_one(k, dst);
                } else {
                    self.lemma_count_one(k, t);
                }
            } else if q == PieceType::King {
                self.lemma_kings_apart(s);
                lemma_step_reverse(s, k);
            } else {
                assert(self.at(s) == self.at(s));  // brings the facts about square `s` into play
            }
        }
    }

    /// Whether the en passant capture by the pawn on `source` is legal: it
    /// blocks or captures the check, if any, keeps a pinned pawn on its pin
    /// ray, and uncovers no slider onto the king.
    fn en_passant_legal(&self, source: usize, ep_square: usize, legal_destinations: Bitboard, pins: &Pins) -> (r:
        bool)
        requires
            self.placement_ok(),
            self.one_king(self.spec_active()),
            source < 64,
            ep_square < 64,
            pins.shaped(self.king_sq(self.spec_active())),
        ensures
            r == ((legal_destinations.has(ep_square as int) || legal_destinations.has(
                8 * (source / 8) + ep_square % 8,
            )) && (forall|d: Direction|
                #[trigger] pins.ray(d).has(source as int) ==> pins.ray(d).has(ep_square as int))
                && self.no_slider_reaches(
                self.king_sq(self.spec_active()),
                self.occupied().insert(ep_square as int).remove(source as int).remove(
                    8 * (source / 8) + ep_square % 8,
                ),
            )),
    {
        let king_index = self.own_king();
        let target = (source & 0b111000) | (ep_square & 0b111);
        proof {
            lemma_target(source, ep_square);
        }
        let only_ep = Bitboard::from_square(ep_square);
        let kept = pins.restrict_moves(source, only_ep, Ghost(king_index as int));
        proof {
            lemma_nonzero(kept);
            assert(only_ep.has(ep_square as int));
            if kept.has(ep_square as int) {
                assert(kept.0 != 0);
            }
        }
        if (!legal_destinations.contains(ep_square) && !legal_destinations.contains(target)) || kept.is_empty() {
            return false;
        }
        let opponent = self.active_color().opposite();
        let diagonal_attackers = self.bishops(opponent).or(self.queens(opponent));
        let straight_attackers = self.rooks(opponent).or(self.queens(opponent));
        let occupancy_bb = self.all_pieces().with_set(ep_square).with_clear(source).with_clear(target);
        let diagonal_hits = bishop_attacks(king_index, occupancy_bb).and(diagonal_attackers);
        let straight_hits = rook_attacks(king_index, occupancy_bb).and(straight_attackers);
        let r = diagonal_hits.is_empty() && straight_hits.is_empty();
        proof {
            let y = self.spec_active().spec_opposite();
            let k = king_index as int;
            let occ = self.occupied().insert(ep_square as int).remove(source as int).remove(target as int);
            self.lemma_occupied_word();
            assert forall|u: int| is_square(u) implies #[trigger] occ.contains(u) == bit(occupancy_bb.0, u as u64) by {
                assert(self.occupied().contains(u) == bit(self.color_bb(0).0 | self.color_bb(1).0, u as u64));
            }
            lemma_nonzero(diagonal_hits);
            lemma_nonzero(straight_hits);
            if !r {
                if diagonal_hits.0 != 0 {
                    let s = choose|s: int| diagonal_hits.has(s);
                    lemma_reach_reverse(k, s, occupancy_bb.0, occ);
                    self.lemma_spec_pieces(PieceType::Bishop, y, s);
                    self.lemma_spec_pieces(PieceType::Queen, y, s);
                    assert(self.at(s) == self.at(s));  // brings the facts about square `s` into play
                } else {
                    let s = choose|s: int| straight_hits.has(s);
                    lemma_reach_reverse(k, s, occupancy_bb.0, occ);
                    self.lemma_spec_pieces(PieceType::Rook, y, s);
                    self.lemma_spec_pieces(PieceType::Queen, y, s);
                    assert(self.at(s) == self.at(s));  // brings the facts about square `s` into play
                }
            }
            if r {
                assert forall|s: int| #![trigger self.at(s)] is_square(s) implies (((self.at(s) == Some(
                    (PieceType::Bishop, y),
                ) || self.at(s) == Some((PieceType::Queen, y))) ==> !diagonal_reach(s, k, occ)) && ((self.at(s)
                    == Some((PieceType::Rook, y)) || self.at(s) == Some((PieceType::Queen, y)))
                    ==> !straight_reach(s, k, occ))) by {
                    lemma_reach_reverse(k, s, occupancy_bb.0, occ);
                    self.lemma_spec_pieces(PieceType::Bishop, y, s);
                    self.lemma_spec_pieces(PieceType::Rook, y, s);
                    self.lemma_spec_pieces(PieceType::Queen, y, s);
                    assert(!diagonal_hits.has(s));
                    assert(!straight_hits.has(s));
                }
            }
        }
        r
    }
}


/// Where generated moves go.
pub trait MoveSink {
    /// The moves pushed so far.
    spec fn pushed(&self) -> Seq<Move>;

    /// Appends a move.
    fn push(&mut self, mv: Move)
        ensures
            final(self).pushed() == old(self).pushed().push(mv),
    ;
}

impl MoveSink for Vec<Move> {
    open spec fn pushed(&self) -> Seq<Move> {
        self@
    }

    fn push(&mut self, mv: Move) {
        Vec::push(self, mv);
    }
}

/// `after` is `before` with legal moves of `b` appended.
pub open spec fn appended_legal(b: Board, before: Seq<Move>, after: Seq<Move>) -> bool {
    &&& before.len() <= after.len()
    &&& after.subrange(0, before.len() as int) == before
    &&& forall|i: int| before.len() <= i < after.len() ==> #[trigger] b.is_legal(after[i])
}

/// Appending legal moves twice appends legal moves.
proof fn lemma_appended_trans(b: Board, s1: Seq<Move>, s2: Seq<Move>, s3: Seq<Move>)
    requires
        appended_legal(b, s1, s2),
        appended_legal(b, s2, s3),
    ensures
        appended_legal(b, s1, s3),
{
    assert(s3.subrange(0, s1.len() as int) =~= s2.subrange(0, s1.len() as int)) by {
        assert forall|i: int| 0 <= i < s1.len() implies s3[i] == s2[i] by {
            assert(s3[i] == s3.subrange(0, s2.len() as int)[i]);
        }
    }
    assert forall|i: int| s1.len() <= i < s3.len() implies #[trigger] b.is_legal(s3[i]) by {
        if i < s2.len() {
            assert(s3[i] == s3.subrange(0, s2.len() as int)[i]);
            assert(b.is_legal(s2[i]));
        }
    }
}

/// Pushing one legal move appends a legal move.
proof fn lemma_appended_push(b: Board, s1: Seq<Move>, s2: Seq<Move>, mv: Move)
    requires
        appended_legal(b, s1, s2),
        b.is_legal(mv),
    ensures
        appended_legal(b, s1, s2.push(mv)),
{
    assert(s2.push(mv).subrange(0, s1.len() as int) =~= s2.subrange(0, s1.len() as int));
    assert forall|i: int| s1.len() <= i < s2.push(mv).len() implies #[trigger] b.is_legal(s2.push(mv)[i]) by {
        if i < s2.len() {
            assert(s2.push(mv)[i] == s2[i]);
        }
    }
}

/// `mv` is among the moves that make `after` out of `before`.
pub open spec fn appended_has(before: Seq<Move>, after: Seq<Move>, mv: Move) -> bool {
    exists|i: int| #![trigger after[i]] before.len() <= i < after.len() && after[i] == mv
}

/// A move appended stays appended when more moves are appended.
proof fn lemma_has_extend(s1: Seq<Move>, s2: Seq<Move>, s3: Seq<Move>, mv: Move)
    requires
        appended_has(s1, s2, mv),
        s2.len() <= s3.len(),
        s3.subrange(0, s2.len() as int) == s2,
    ensures
        appended_has(s1, s3, mv),
{
    let i = choose|i: int| #![trigger s2[i]] s1.len() <= i < s2.len() && s2[i] == mv;
    assert(s3[i] == s3.subrange(0, s2.len() as int)[i]);
}

/// A move appended after a longer prefix is appended after a shorter one.
proof fn lemma_has_shorter(s1: Seq<Move>, s2: Seq<Move>, s3: Seq<Move>, mv: Move)
    requires
        appended_has(s2, s3, mv),
        s1.len() <= s2.len(),
    ensures
        appended_has(s1, s3, mv),
{
    let i = choose|i: int| #![trigger s3[i]] s2.len() <= i < s3.len() && s3[i] == mv;
}

/// A pushed move is appended.
proof fn lemma_has_push(s1: Seq<Move>, s2: Seq<Move>, mv: Move)
    requires
        s1.len() <= s2.len(),
    ensures
        appended_has(s1, s2.push(mv), mv),
        s2.push(mv).subrange(0, s2.len() as int) == s2,
{
    assert(s2.push(mv)[s2.len() as int] == mv);
    assert(s2.push(mv).subrange(0, s2.len() as int) =~= s2);
}

/// No move is appended twice.
pub open spec fn distinct_from(before: Seq<Move>, after: Seq<Move>) -> bool {
    forall|i: int, j: int|
        #![trigger after[i], after[j]]
        before.len() <= i < after.len() && before.len() <= j < after.len() && i != j ==> after[i] != after[j]
}

/// Pushing a move not yet appended keeps the appended moves distinct.
proof fn lemma_distinct_push(s1: Seq<Move>, s2: Seq<Move>, mv: Move)
    requires
        s1.len() <= s2.len(),
        distinct_from(s1, s2),
        forall|i: int| s1.len() <= i < s2.len() ==> #[trigger] s2[i] != mv,
    ensures
        distinct_from(s1, s2.push(mv)),
{
    let s3 = s2.push(mv);
    assert forall|i: int, j: int|
        #![trigger s3[i], s3[j]]
        s1.len() <= i < s3.len() && s1.len() <= j < s3.len() && i != j implies s3[i] != s3[j] by {
        if i < s2.len() && j < s2.len() {
            assert(s3[i] == s2[i] && s3[j] == s2[j]);
        } else if i < s2.len() {
            assert(s3[i] == s2[i]);
        } else if j < s2.len() {
            assert(s3[j] == s2[j]);
        }
    }
}

/// Two runs of distinct moves, no move of the first equal to one of the
/// second, make one run of distinct moves.
proof fn lemma_distinct_join(s0: Seq<Move>, s1: Seq<Move>, s2: Seq<Move>)
    requires
        s0.len() <= s1.len() <= s2.len(),
        s2.subrange(0, s1.len() as int) == s1,
        distinct_from(s0, s1),
        distinct_from(s1, s2),
        forall|i: int, j: int|
            #![trigger s1[i], s2[j]]
            s0.len() <= i < s1.len() <= j < s2.len() ==> s1[i] != s2[j],
    ensures
        distinct_from(s0, s2),
{
    assert forall|i: int| 0 <= i < s1.len() implies #[trigger] s2[i] == s1[i] by {
        assert(s2.subrange(0, s1.len() as int)[i] == s2[i]);
    }
    assert forall|i: int, j: int|
        #![trigger s2[i], s2[j]]
        s0.len() <= i < s2.len() && s0.len() <= j < s2.len() && i != j implies s2[i] != s2[j] by {
        if i < s1.len() && j < s1.len() {
            assert(s2[i] == s1[i] && s2[j] == s1[j]);
        } else if i < s1.len() {
            assert(s2[i] == s1[i]);
        } else if j < s1.len() {
            assert(s2[j] == s1[j]);
        }
    }
}

/// The group of the move generator that produces a move: king steps,
/// castling, pawn moves, en passant, then knight, bishop, rook and queen
/// moves.
pub open spec fn move_group(b: Board, mv: Move) -> int {
    match mv.move_type {
        MoveType::Castling(_) => 1,
        MoveType::EnPassant(_) => 3,
        MoveType::Promotion(_) => 2,
        MoveType::Regular => match b.at(mv.from as int) {
            Some((p, _)) => match p {
                PieceType::King => 0,
                PieceType::Pawn => 2,
                PieceType::Knight => 4,
                PieceType::Bishop => 5,
                PieceType::Rook => 6,
                PieceType::Queen => 7,
            },
            None => 8,
        },
    }
}

/// The moves appended after `before` come group by group: king moves,
/// castling, pawn moves, en passant captures, then knight, bishop, rook and
/// queen moves.
pub open spec fn groups_in_order(b: Board, before: Seq<Move>, after: Seq<Move>) -> bool {
    forall|i: int, j: int|
        #![trigger after[i], after[j]]
        before.len() <= i < j < after.len() ==> move_group(b, after[i]) <= move_group(b, after[j])
}

/// Joining a run of moves of one group to runs of earlier groups keeps the
/// moves distinct and the groups in order.
proof fn lemma_group_join(b: Board, s0: Seq<Move>, s1: Seq<Move>, s2: Seq<Move>, g: int)
    requires
        s0.len() <= s1.len() <= s2.len(),
        s2.subrange(0, s1.len() as int) == s1,
        distinct_from(s0, s1),
        distinct_from(s1, s2),
        groups_in_order(b, s0, s1),
        forall|i: int| s0.len() <= i < s1.len() ==> move_group(b, #[trigger] s1[i]) < g,
        forall|i: int| s1.len() <= i < s2.len() ==> move_group(b, #[trigger] s2[i]) == g,
    ensures
        distinct_from(s0, s2),
        groups_in_order(b, s0, s2),
        forall|i: int| s0.len() <= i < s2.len() ==> move_group(b, #[trigger] s2[i]) <= g,
{
    assert forall|i: int, j: int|
        #![trigger s2[i], s2[j]]
        s0.len() <= i < j < s2.len() implies move_group(b, s2[i]) <= move_group(b, s2[j]) by {
        if j < s1.len() {
            assert(s2[i] == s2.subrange(0, s1.len() as int)[i]);
            assert(s2[j] == s2.subrange(0, s1.len() as int)[j]);
            assert(move_group(b, s1[i]) <= move_group(b, s1[j]));
        } else if i < s1.len() {
            assert(s2[i] == s2.subrange(0, s1.len() as int)[i]);
            assert(move_group(b, s1[i]) < g);
            assert(move_group(b, s2[j]) == g);
        } else {
            assert(move_group(b, s2[i]) == g);
            assert(move_group(b, s2[j]) == g);
        }
    }
    assert forall|i: int, j: int|
        #![trigger s1[i], s2[j]]
        s0.len() <= i < s1.len() <= j < s2.len() implies s1[i] != s2[j] by {
        assert(move_group(b, s1[i]) < g);
        assert(move_group(b, s2[j]) == g);
    }
    lemma_distinct_join(s0, s1, s2);
    assert forall|i: int| s0.len() <= i < s2.len() implies move_group(b, #[trigger] s2[i]) <= g by {
        if i < s1.len() {
            assert(s2[i] == s2.subrange(0, s1.len() as int)[i]);
            assert(move_group(b, s1[i]) < g);
        }
    }
}

/// The first and last ranks.
proof fn lemma_back_ranks(d: u64)
    requires
        d < 64,
    ensures
        bit(0xFF00_0000_0000_00FFu64, d) == back_rank(d as int),
{
    assert(bit(0xFF00_0000_0000_00FFu64, d) == (d < 8 || d >= 56)) by (bit_vector)
        requires
            d < 64,
    ;
}

/// The moves of the pawn on `source` to `t` are among those appended: the
/// four promotions on the first and last ranks, a regular move elsewhere.
pub open spec fn pawn_moves_in(before: Seq<Move>, after: Seq<Move>, source: int, t: int) -> bool {
    if back_rank(t) {
        &&& appended_has(
            before,
            after,
            Move { from: source as u8, to: t as u8, move_type: MoveType::Promotion(PieceType::Knight) },
        )
        &&& appended_has(
            before,
            after,
            Move { from: source as u8, to: t as u8, move_type: MoveType::Promotion(PieceType::Bishop) },
        )
        &&& appended_has(
            before,
            after,
            Move { from: source as u8, to: t as u8, move_type: MoveType::Promotion(PieceType::Rook) },
        )
        &&& appended_has(
            before,
            after,
            Move { from: source as u8, to: t as u8, move_type: MoveType::Promotion(PieceType::Queen) },
        )
    } else {
        appended_has(before, after, Move { from: source as u8, to: t as u8, move_type: MoveType::Regular })
    }
}

/// The pawn moves appended stay appended when more moves are appended.
proof fn lemma_pawn_in_extend(s1: Seq<Move>, s2: Seq<Move>, s3: Seq<Move>, source: int, t: int)
    requires
        pawn_moves_in(s1, s2, source, t),
        s2.len() <= s3.len(),
        s3.subrange(0, s2.len() as int) == s2,
    ensures
        pawn_moves_in(s1, s3, source, t),
{
    if back_rank(t) {
        lemma_has_extend(s1, s2, s3, Move { from: source as u8, to: t as u8, move_type: MoveType::Promotion(PieceType::Knight) });
        lemma_has_extend(s1, s2, s3, Move { from: source as u8, to: t as u8, move_type: MoveType::Promotion(PieceType::Bishop) });
        lemma_has_extend(s1, s2, s3, Move { from: source as u8, to: t as u8, move_type: MoveType::Promotion(PieceType::Rook) });
        lemma_has_extend(s1, s2, s3, Move { from: source as u8, to: t as u8, move_type: MoveType::Promotion(PieceType::Queen) });
    } else {
        lemma_has_extend(s1, s2, s3, Move { from: source as u8, to: t as u8, move_type: MoveType::Regular });
    }
}

impl Board {
    /// A destination for a piece other than the king on `src` passes the
    /// check and pin tests: with a check it blocks or captures it, and a
    /// pinned piece stays on its pin ray.
    pub open spec fn dest_ok(&self, src: int, dst: int) -> bool {
        let k = self.king_sq(self.spec_active());
        &&& self.check_count(k) == 0 || (self.check_count(k) == 1 && self.blocks_check(k, dst))
        &&& forall|d: Direction|
            self.pinned_along(k, d) && #[trigger] self.through(k, d, src) ==> self.through(k, d, dst)
    }

    /// A move of a piece other than the king that follows the rules and
    /// passes the check and pin tests is legal.
    proof fn lemma_step_legal(&self, mv: Move)
        requires
            self.playable_position(),
            mv.move_type is Regular || mv.move_type is Promotion,
            self.follows_rules(mv),
            self.at(mv.from as int) != Some((PieceType::King, self.spec_active())),
            self.dest_ok(mv.from as int, mv.to as int),
        ensures
            self.is_legal(mv),
    {
        lemma_coords(mv.from as int);
        lemma_coords(mv.to as int);
        self.lemma_piece_move_safe(mv);
    }

    /// Pushes a regular move from `source` to each destination.
    fn push_moves<S: MoveSink>(&self, source: usize, destinations: Bitboard, moves: &mut S)
        requires
            source < 64,
            forall|t: int|
                #[trigger] destinations.has(t) ==> self.is_legal(
                    Move { from: source as u8, to: t as u8, move_type: MoveType::Regular },
                ),
        ensures
            appended_legal(*self, old(moves).pushed(), final(moves).pushed()),
            forall|t: int|
                #[trigger] destinations.has(t) ==> appended_has(
                    old(moves).pushed(),
                    final(moves).pushed(),
                    Move { from: source as u8, to: t as u8, move_type: MoveType::Regular },
                ),
            distinct_from(old(moves).pushed(), final(moves).pushed()),
            forall|i: int|
                old(moves).pushed().len() <= i < final(moves).pushed().len() ==> (#[trigger] final(moves).pushed()[i]).from == source as u8 && final(moves).pushed()[i].move_type == MoveType::Regular,
    {
        let ghost start = moves.pushed();
        proof {
            assert(start.subrange(0, start.len() as int) =~= start);
        }
        let mut iter = destinations.iter_indices();
        loop
            invariant
                source < 64,
                iter@.subset_of(destinations@),
                forall|t: int|
                    #[trigger] destinations.has(t) ==> self.is_legal(
                        Move { from: source as u8, to: t as u8, move_type: MoveType::Regular },
                    ),
                appended_legal(*self, start, moves.pushed()),
                forall|t: int|
                    #[trigger] destinations.has(t) && !iter@.contains(t) ==> appended_has(
                        start,
                        moves.pushed(),
                        Move { from: source as u8, to: t as u8, move_type: MoveType::Regular },
                    ),
                distinct_from(start, moves.pushed()),
                forall|i: int|
                    start.len() <= i < moves.pushed().len() ==> (#[trigger] moves.pushed()[i]).from == source as u8
                        && moves.pushed()[i].move_type == MoveType::Regular && !iter@.contains(
                        moves.pushed()[i].to as int,
                    ),
            ensures
                appended_legal(*self, start, moves.pushed()),
                forall|t: int|
                    #[trigger] destinations.has(t) ==> appended_has(
                        start,
                        moves.pushed(),
                        Move { from: source as u8, to: t as u8, move_type: MoveType::Regular },
                    ),
                distinct_from(start, moves.pushed()),
                forall|i: int|
                    start.len() <= i < moves.pushed().len() ==> (#[trigger] moves.pushed()[i]).from == source as u8
                        && moves.pushed()[i].move_type == MoveType::Regular,
            decreases iter.word(),
        {
            let ghost before_iter = iter@;
            match iter.next() {
                Some(destination) => {
                    let mv = Move { from: source as u8, to: destination as u8, move_type: MoveType::Regular };
                    let ghost s2 = moves.pushed();
                    proof {
                        assert(destinations.has(destination as int));
                        lemma_appended_push(*self, start, moves.pushed(), mv);
                        lemma_has_push(start, s2, mv);
                        assert forall|i: int| start.len() <= i < s2.len() implies #[trigger] s2[i] != mv by {
                            assert(!before_iter.contains(s2[i].to as int));
                        }
                        lemma_distinct_push(start, s2, mv);
                        assert forall|i: int| start.len() <= i < s2.len() + 1 implies (#[trigger] s2.push(mv)[i]).from
                            == source as u8 && s2.push(mv)[i].move_type == MoveType::Regular && !iter@.contains(
                            s2.push(mv)[i].to as int,
                        ) by {
                            if i < s2.len() {
                                assert(s2.push(mv)[i] == s2[i]);
                            }
                        }
                        assert forall|t: int|
                            #[trigger] destinations.has(t) && !iter@.contains(t) implies appended_has(
                            start,
                            s2.push(mv),
                            Move { from: source as u8, to: t as u8, move_type: MoveType::Regular },
                        ) by {
                            if t != destination as int {
                                assert(!before_iter.contains(t));
                                lemma_has_extend(
                                    start,
                                    s2,
                                    s2.push(mv),
                                    Move { from: source as u8, to: t as u8, move_type: MoveType::Regular },
                                );
                            }
                        }
                    }
                    moves.push(mv);
                },
                None => {
                    break ;
                },
            }
        }
    }

    /// Pushes the moves of the pawn on `source` to each destination: the four
    /// promotions on the first and last ranks, a regular move elsewhere.
    fn push_pawn_moves<S: MoveSink>(&self, source: usize, destinations: Bitboard, moves: &mut S)
        requires
            source < 64,
            forall|t: int|
                #[trigger] destinations.has(t) ==> if back_rank(t) {
                    &&& self.is_legal(
                        Move { from: source as u8, to: t as u8, move_type: MoveType::Promotion(PieceType::Knight) },
                    )
                    &&& self.is_legal(
                        Move { from: source as u8, to: t as u8, move_type: MoveType::Promotion(PieceType::Bishop) },
                    )
                    &&& self.is_legal(
                        Move { from: source as u8, to: t as u8, move_type: MoveType::Promotion(PieceType::Rook) },
                    )
                    &&& self.is_legal(
                        Move { from: source as u8, to: t as u8, move_type: MoveType::Promotion(PieceType::Queen) },
                    )
                } else {
                    self.is_legal(Move { from: source as u8, to: t as u8, move_type: MoveType::Regular })
                },
        ensures
            appended_legal(*self, old(moves).pushed(), final(moves).pushed()),
            forall|t: int|
                #[trigger] destinations.has(t) ==> pawn_moves_in(
                    old(moves).pushed(),
                    final(moves).pushed(),
                    source as int,
                    t,
                ),
            distinct_from(old(moves).pushed(), final(moves).pushed()),
            forall|i: int|
                old(moves).pushed().len() <= i < final(moves).pushed().len() ==> (#[trigger] final(moves).pushed()[i]).from == source as u8 && (final(moves).pushed()[i].move_type is Regular || final(moves).pushed()[i].move_type is Promotion),
    {
        let ghost start = moves.pushed();
        proof {
            assert(start.subrange(0, start.len() as int) =~= start);
        }
        let back_ranks = Bitboard(0xFF00_0000_0000_00FF);
        let mut iter = destinations.iter_indices();
        loop
            invariant
                source < 64,
                back_ranks.0 == 0xFF00_0000_0000_00FFu64,
                iter@.subset_of(destinations@),
                forall|t: int|
                    #[trigger] destinations.has(t) ==> if back_rank(t) {
                        &&& self.is_legal(
                            Move {
                                from: source as u8,
                                to: t as u8,
                                move_type: MoveType::Promotion(PieceType::Knight),
                            },
                        )
                        &&& self.is_legal(
                            Move {
                                from: source as u8,
                                to: t as u8,
                                move_type: MoveType::Promotion(PieceType::Bishop),
                            },
                        )
                        &&& self.is_legal(
                            Move { from: source as u8, to: t as u8, move_type: MoveType::Promotion(PieceType::Rook) },
                        )
                        &&& self.is_legal(
                            Move {
                                from: source as u8,
                                to: t as u8,
                                move_type: MoveType::Promotion(PieceType::Queen),
                            },
                        )
                    } else {
                        self.is_legal(Move { from: source as u8, to: t as u8, move_type: MoveType::Regular })
                    },
                appended_legal(*self, start, moves.pushed()),
                forall|t: int|
                    #[trigger] destinations.has(t) && !iter@.contains(t) ==> pawn_moves_in(
                        start,
                        moves.pushed(),
                        source as int,
                        t,
                    ),
                distinct_from(start, moves.pushed()),
                forall|i: int|
                    start.len() <= i < moves.pushed().len() ==> (#[trigger] moves.pushed()[i]).from == source as u8
                        && (moves.pushed()[i].move_type is Regular || moves.pushed()[i].move_type is Promotion)
                        && !iter@.contains(moves.pushed()[i].to as int),
            ensures
                appended_legal(*self, start, moves.pushed()),
                forall|t: int|
                    #[trigger] destinations.has(t) ==> pawn_moves_in(start, moves.pushed(), source as int, t),
                distinct_from(start, moves.pushed()),
                forall|i: int|
                    start.len() <= i < moves.pushed().len() ==> (#[trigger] moves.pushed()[i]).from == source as u8
                        && (moves.pushed()[i].move_type is Regular || moves.pushed()[i].move_type is Promotion),
            decreases iter.word(),
        {
            let ghost before_iter = iter@;
            match iter.next() {
                Some(destination) => {
                    let ghost s2 = moves.pushed();
                    proof {
                        assert(destinations.has(destination as int));
                        lemma_back_ranks(destination as u64);
                    }
                    if back_ranks.contains(destination) {
                        let kinds = [PieceType::Knight, PieceType::Bishop, PieceType::Rook, PieceType::Queen];
                        let mut i: usize = 0;
                        while i < 4
                            invariant
                                i <= 4,
                                source < 64,
                                destination < 64,
                                back_rank(destination as int),
                                kinds@ == seq![PieceType::Knight, PieceType::Bishop, PieceType::Rook, PieceType::Queen],
                                forall|j: int|
                                    0 <= j < 4 ==> self.is_legal(
                                        Move {
                                            from: source as u8,
                                            to: destination as u8,
                                            move_type: MoveType::Promotion(#[trigger] kinds@[j]),
                                        },
                                    ),
                                appended_legal(*self, start, moves.pushed()),
                                s2.len() <= moves.pushed().len(),
                                moves.pushed().subrange(0, s2.len() as int) == s2,
                                moves.pushed().len() == s2.len() + i,
                                start.len() <= s2.len(),
                                distinct_from(start, moves.pushed()),
                                forall|j: int|
                                    0 <= j < i ==> #[trigger] moves.pushed()[s2.len() + j] == (Move {
                                        from: source as u8,
                                        to: destination as u8,
                                        move_type: MoveType::Promotion(kinds@[j]),
                                    }),
                                forall|idx: int|
                                    start.len() <= idx < s2.len() ==> !before_iter.contains(
                                        (#[trigger] s2[idx]).to as int,
                                    ) && s2[idx].from == source as u8 && (s2[idx].move_type is Regular
                                        || s2[idx].move_type is Promotion),
                                before_iter.contains(destination as int),
                                forall|j: int|
                                    0 <= j < i ==> appended_has(
                                        start,
                                        moves.pushed(),
                                        Move {
                                            from: source as u8,
                                            to: destination as u8,
                                            move_type: MoveType::Promotion(#[trigger] kinds@[j]),
                                        },
                                    ),
                            decreases 4 - i,
                        {
                            let mv = Move {
                                from: source as u8,
                                to: destination as u8,
                                move_type: MoveType::Promotion(kinds[i]),
                            };
                            let ghost s3 = moves.pushed();
                            proof {
                                assert(self.is_legal(mv));
                                lemma_appended_push(*self, start, moves.pushed(), mv);
                                lemma_has_push(start, s3, mv);
                                assert forall|idx: int| start.len() <= idx < s3.len() implies #[trigger] s3[idx] != mv by {
                                    if idx < s2.len() {
                                        assert(s3[idx] == s3.subrange(0, s2.len() as int)[idx]);
                                        assert(!before_iter.contains(s2[idx].to as int));
                                    } else {
                                        let j = idx - s2.len();
                                        assert(s3[s2.len() + j] == Move {
                                            from: source as u8,
                                            to: destination as u8,
                                            move_type: MoveType::Promotion(kinds@[j]),
                                        });
                                    }
                                }
                                lemma_distinct_push(start, s3, mv);
                                assert forall|j: int| 0 <= j < i + 1 implies #[trigger] s3.push(mv)[s2.len() + j] == (Move {
                                    from: source as u8,
                                    to: destination as u8,
                                    move_type: MoveType::Promotion(kinds@[j]),
                                }) by {
                                    if j < i {
                                        assert(s3.push(mv)[s2.len() + j] == s3[s2.len() + j]);
                                    }
                                }
                                assert forall|j: int| 0 <= j < i implies appended_has(
                                    start,
                                    s3.push(mv),
                                    Move {
                                        from: source as u8,
                                        to: destination as u8,
                                        move_type: MoveType::Promotion(#[trigger] kinds@[j]),
                                    },
                                ) by {
                                    lemma_has_extend(
                                        start,
                                        s3,
                                        s3.push(mv),
                                        Move {
                                            from: source as u8,
                                            to: destination as u8,
                                            move_type: MoveType::Promotion(kinds@[j]),
                                        },
                                    );
                                }
                                assert(s3.push(mv).subrange(0, s2.len() as int) =~= s3.subrange(0, s2.len() as int));
                            }
                            moves.push(mv);
                            i += 1;
                        }
                        proof {
                            assert(kinds@[0] == PieceType::Knight);
                            assert(kinds@[1] == PieceType::Bishop);
                            assert(kinds@[2] == PieceType::Rook);
                            assert(kinds@[3] == PieceType::Queen);
                            assert(pawn_moves_in(start, moves.pushed(), source as int, destination as int));
                            let fin = moves.pushed();
                            assert forall|idx: int| start.len() <= idx < fin.len() implies (#[trigger] fin[idx]).from
                                == source as u8 && (fin[idx].move_type is Regular || fin[idx].move_type is Promotion)
                                && !iter@.contains(fin[idx].to as int) by {
                                if idx < s2.len() {
                                    assert(fin[idx] == fin.subrange(0, s2.len() as int)[idx]);
                                } else {
                                    let j = idx - s2.len();
                                    assert(fin[s2.len() + j] == Move {
                                        from: source as u8,
                                        to: destination as u8,
                                        move_type: MoveType::Promotion(kinds@[j]),
                                    });
                                }
                            }
                        }
                    } else {
                        let mv = Move { from: source as u8, to: destination as u8, move_type: MoveType::Regular };
                        proof {
                            lemma_appended_push(*self, start, moves.pushed(), mv);
                            lemma_has_push(start, s2, mv);
                            assert forall|idx: int| start.len() <= idx < s2.len() implies #[trigger] s2[idx] != mv by {
                                assert(!before_iter.contains(s2[idx].to as int));
                            }
                            lemma_distinct_push(start, s2, mv);
                            assert forall|idx: int| start.len() <= idx < s2.len() + 1 implies (#[trigger] s2.push(
                                mv,
                            )[idx]).from == source as u8 && (s2.push(mv)[idx].move_type is Regular || s2.push(
                                mv,
                            )[idx].move_type is Promotion) && !iter@.contains(s2.push(mv)[idx].to as int) by {
                                if idx < s2.len() {
                                    assert(s2.push(mv)[idx] == s2[idx]);
                                }
                            }
                        }
                        moves.push(mv);
                    }
                    proof {
                        assert forall|t: int|
                            #[trigger] destinations.has(t) && !iter@.contains(t) implies pawn_moves_in(
                            start,
                            moves.pushed(),
                            source as int,
                            t,
                        ) by {
                            if t != destination as int {
                                assert(!before_iter.contains(t));
                                lemma_pawn_in_extend(start, s2, moves.pushed(), source as int, t);
                            }
                        }
                    }
                },
                None => {
                    break ;
                },
            }
        }
    }
}


impl Board {
    /// Restricted destinations pass the check and pin tests.
    proof fn lemma_restricted_ok(&self, pins: &Pins, ld: Bitboard, src: int, raw: Bitboard, r: Bitboard)
        requires
            pins.describe(*self, self.king_sq(self.spec_active())),
            forall|t: int|
                #[trigger] r.has(t) == ((raw.has(t) && ld.has(t)) && forall|d: Direction|
                    #[trigger] pins.ray(d).has(src) ==> pins.ray(d).has(t)),
            forall|t: int|
                #[trigger] ld.has(t) ==> (self.check_count(self.king_sq(self.spec_active())) == 0 || (
                self.check_count(self.king_sq(self.spec_active())) == 1 && self.blocks_check(
                    self.king_sq(self.spec_active()),
                    t,
                ))),
        ensures
            forall|t: int| #[trigger] r.has(t) ==> raw.has(t) && self.dest_ok(src, t),
    {
        let k = self.king_sq(self.spec_active());
        assert forall|t: int| #[trigger] r.has(t) implies raw.has(t) && self.dest_ok(src, t) by {
            assert forall|d: Direction| self.pinned_along(k, d) && #[trigger] self.through(k, d, src) implies self.through(
                k,
                d,
                t,
            ) by {
                assert(pins.ray(d).has(src));
                assert(pins.ray(d).has(t));
            }
        }
    }

    /// Pushes the legal moves of the knights, bishops, rooks or queens of the
    /// side to move.
    fn push_piece_moves<S: MoveSink>(
        &self,
        piece_type: PieceType,
        legal_destinations: Bitboard,
        pins: &Pins,
        moves: &mut S,
    )
        requires
            self.playable_position(),
            piece_type == PieceType::Knight || piece_type == PieceType::Bishop || piece_type == PieceType::Rook
                || piece_type == PieceType::Queen,
            pins.describe(*self, self.king_sq(self.spec_active())),
            forall|t: int|
                #[trigger] legal_destinations.has(t) ==> (self.check_count(self.king_sq(self.spec_active())) == 0
                    || (self.check_count(self.king_sq(self.spec_active())) == 1 && self.blocks_check(
                    self.king_sq(self.spec_active()),
                    t,
                ))),
            forall|t: int|
                is_square(t) && (self.check_count(self.king_sq(self.spec_active())) == 0 || (self.check_count(
                    self.king_sq(self.spec_active()),
                ) == 1 && self.blocks_check(self.king_sq(self.spec_active()), t))) ==> #[trigger] legal_destinations.has(t),
        ensures
            appended_legal(*self, old(moves).pushed(), final(moves).pushed()),
            forall|mv: Move|
                #![trigger self.is_legal(mv)]
                mv.move_type is Regular && self.at(mv.from as int) == Some((piece_type, self.spec_active()))
                    && self.is_legal(mv) ==> appended_has(old(moves).pushed(), final(moves).pushed(), mv),
            distinct_from(old(moves).pushed(), final(moves).pushed()),
            forall|i: int|
                old(moves).pushed().len() <= i < final(moves).pushed().len() ==> (#[trigger] final(moves).pushed()[i]).move_type == MoveType::Regular && self.at(final(moves).pushed()[i].from as int)
                    == Some((piece_type, self.spec_active())),
    {
        let ghost start = moves.pushed();
        proof {
            assert(start.subrange(0, start.len() as int) =~= start);
        }
        let x = self.active_color();
        let ghost k = self.king_sq(x);
        let sources = match piece_type {
            PieceType::Knight => self.knights(x),
            PieceType::Bishop => self.bishops(x),
            PieceType::Rook => self.rooks(x),
            _ => self.queens(x),
        };
        let mut iter = sources.iter_indices();
        proof {
            assert forall|mv: Move|
                #![trigger self.is_legal(mv)]
                mv.move_type is Regular && self.at(mv.from as int) == Some((piece_type, x)) && self.is_legal(mv)
                    && !iter@.contains(mv.from as int) implies appended_has(start, moves.pushed(), mv) by {
                self.lemma_spec_pieces(piece_type, x, mv.from as int);
                assert(sources.has(mv.from as int));
            }
        }
        loop
            invariant
                self.playable_position(),
                x == self.spec_active(),
                k == self.king_sq(x),
                piece_type == PieceType::Knight || piece_type == PieceType::Bishop || piece_type == PieceType::Rook
                    || piece_type == PieceType::Queen,
                sources == self.spec_pieces(piece_type, x),
                pins.describe(*self, k),
                forall|t: int|
                    #[trigger] legal_destinations.has(t) ==> (self.check_count(k) == 0 || (self.check_count(k)
                        == 1 && self.blocks_check(k, t))),
                forall|t: int|
                    is_square(t) && (self.check_count(k) == 0 || (self.check_count(k) == 1 && self.blocks_check(k, t)))
                        ==> #[trigger] legal_destinations.has(t),
                iter@.subset_of(sources@),
                appended_legal(*self, start, moves.pushed()),
                forall|mv: Move|
                    #![trigger self.is_legal(mv)]
                    mv.move_type is Regular && self.at(mv.from as int) == Some((piece_type, x)) && self.is_legal(mv)
                        && !iter@.contains(mv.from as int) ==> appended_has(start, moves.pushed(), mv),
                distinct_from(start, moves.pushed()),
                forall|i: int|
                    start.len() <= i < moves.pushed().len() ==> (#[trigger] moves.pushed()[i]).move_type
                        == MoveType::Regular && self.at(moves.pushed()[i].from as int) == Some((piece_type, x))
                        && !iter@.contains(moves.pushed()[i].from as int),
            ensures
                distinct_from(start, moves.pushed()),
                forall|i: int|
                    start.len() <= i < moves.pushed().len() ==> (#[trigger] moves.pushed()[i]).move_type
                        == MoveType::Regular && self.at(moves.pushed()[i].from as int) == Some((piece_type, x)),
                appended_legal(*self, start, moves.pushed()),
                forall|mv: Move|
                    #![trigger self.is_legal(mv)]
                    mv.move_type is Regular && self.at(mv.from as int) == Some((piece_type, x)) && self.is_legal(mv)
                        ==> appended_has(start, moves.pushed(), mv),
            decreases iter.word(),
        {
            let ghost before_iter = iter@;
            match iter.next() {
                Some(source) => {
                    let raw = match piece_type {
                        PieceType::Knight => self.knight_moves(source),
                        PieceType::Bishop => self.bishop_moves(source),
                        PieceType::Rook => self.rook_moves(source),
                        _ => self.queen_moves(source),
                    };
                    let destinations = pins.restrict_moves(source, raw.and(legal_destinations), Ghost(k));
                    let ghost mid = moves.pushed();
                    proof {
                        assert(sources.has(source as int));
                        self.lemma_spec_pieces(piece_type, x, source as int);
                        self.lemma_restricted_ok(pins, legal_destinations, source as int, raw, destinations);
                        assert forall|t: int| #[trigger] destinations.has(t) implies self.is_legal(
                            Move { from: source as u8, to: t as u8, move_type: MoveType::Regular },
                        ) by {
                            let mv = Move { from: source as u8, to: t as u8, move_type: MoveType::Regular };
                            assert(raw.has(t));
                            assert(self.piece_move_ok(piece_type, source as int, t));
                            assert(mv.to as int == t);
                            assert(self.follows_rules(mv));
                            self.lemma_step_legal(mv);
                        }
                    }
                    self.push_moves(source, destinations, moves);
                    proof {
                        lemma_appended_trans(*self, start, mid, moves.pushed());
                        let fin = moves.pushed();
                        assert forall|i: int, j: int|
                            #![trigger mid[i], fin[j]]
                            start.len() <= i < mid.len() <= j < fin.len() implies mid[i] != fin[j] by {
                            assert(!before_iter.contains(mid[i].from as int));
                            assert(fin[j].from == source as u8);
                        }
                        lemma_distinct_join(start, mid, fin);
                        assert forall|i: int| start.len() <= i < fin.len() implies (#[trigger] fin[i]).move_type
                            == MoveType::Regular && self.at(fin[i].from as int) == Some((piece_type, x))
                            && !iter@.contains(fin[i].from as int) by {
                            if i < mid.len() {
                                assert(fin[i] == fin.subrange(0, mid.len() as int)[i]);
                            } else {
                                assert(fin[i].from == source as u8);
                            }
                        }
                        assert forall|mv: Move|
                            #![trigger self.is_legal(mv)]
                            mv.move_type is Regular && self.at(mv.from as int) == Some((piece_type, x))
                                && self.is_legal(mv) && !iter@.contains(mv.from as int) implies appended_has(
                            start,
                            moves.pushed(),
                            mv,
                        ) by {
                            if mv.from as int == source as int {
                                let t = mv.to as int;
                                self.lemma_dest_needed(mv);
                                lemma_coords(t);
                                assert(self.piece_move_ok(piece_type, source as int, t));
                                assert(raw.has(t));
                                assert(legal_destinations.has(t));
                                assert forall|d: Direction| #[trigger] pins.ray(d).has(source as int) implies pins.ray(d).has(t) by {
                                    assert(self.through(k, d, source as int));
                                }
                                assert(destinations.has(t));
                                assert(mv == Move { from: source as u8, to: t as u8, move_type: MoveType::Regular });
                                lemma_has_shorter(start, mid, moves.pushed(), mv);
                            } else {
                                assert(!before_iter.contains(mv.from as int));
                                lemma_has_extend(start, mid, moves.pushed(), mv);
                            }
                        }
                    }
                },
                None => {
                    break ;
                },
            }
        }
        proof {
            assert forall|mv: Move|
                #![trigger self.is_legal(mv)]
                mv.move_type is Regular && self.at(mv.from as int) == Some((piece_type, x)) && self.is_legal(mv)
                    implies appended_has(start, moves.pushed(), mv) by {
            }
        }
    }

    /// Pushes the legal pawn moves of the side to move, en passant aside.
    fn push_all_pawn_moves<S: MoveSink>(&self, legal_destinations: Bitboard, pins: &Pins, moves: &mut S)
        requires
            self.playable_position(),
            pins.describe(*self, self.king_sq(self.spec_active())),
            forall|t: int|
                #[trigger] legal_destinations.has(t) ==> (self.check_count(self.king_sq(self.spec_active())) == 0
                    || (self.check_count(self.king_sq(self.spec_active())) == 1 && self.blocks_check(
                    self.king_sq(self.spec_active()),
                    t,
                ))),
            forall|t: int|
                is_square(t) && (self.check_count(self.king_sq(self.spec_active())) == 0 || (self.check_count(
                    self.king_sq(self.spec_active()),
                ) == 1 && self.blocks_check(self.king_sq(self.spec_active()), t))) ==> #[trigger] legal_destinations.has(t),
        ensures
            appended_legal(*self, old(moves).pushed(), final(moves).pushed()),
            forall|mv: Move|
                #![trigger self.is_legal(mv)]
                (mv.move_type is Regular || mv.move_type is Promotion) && self.at(mv.from as int) == Some(
                    (PieceType::Pawn, self.spec_active()),
                ) && self.is_legal(mv) ==> appended_has(old(moves).pushed(), final(moves).pushed(), mv),
            distinct_from(old(moves).pushed(), final(moves).pushed()),
            forall|i: int|
                old(moves).pushed().len() <= i < final(moves).pushed().len() ==> ((#[trigger] final(moves).pushed()[i]).move_type is Regular || final(moves).pushed()[i].move_type is Promotion) && self.at(
                    final(moves).pushed()[i].from as int,
                ) == Some((PieceType::Pawn, self.spec_active())),
    {
        let ghost start = moves.pushed();
        proof {
            assert(start.subrange(0, start.len() as int) =~= start);
        }
        let x = self.active_color();
        let ghost k = self.king_sq(x);
        let sources = self.pawns(x);
        let mut iter = sources.iter_indices();
        proof {
            assert forall|mv: Move|
                #![trigger self.is_legal(mv)]
                (mv.move_type is Regular || mv.move_type is Promotion) && self.at(mv.from as int) == Some(
                    (PieceType::Pawn, x),
                ) && self.is_legal(mv) && !iter@.contains(mv.from as int) implies appended_has(
                start,
                moves.pushed(),
                mv,
            ) by {
                self.lemma_spec_pieces(PieceType::Pawn, x, mv.from as int);
                assert(sources.has(mv.from as int));
            }
        }
        loop
            invariant
                self.playable_position(),
                x == self.spec_active(),
                k == self.king_sq(x),
                sources == self.spec_pieces(PieceType::Pawn, x),
                pins.describe(*self, k),
                forall|t: int|
                    #[trigger] legal_destinations.has(t) ==> (self.check_count(k) == 0 || (self.check_count(k)
                        == 1 && self.blocks_check(k, t))),
                forall|t: int|
                    is_square(t) && (self.check_count(k) == 0 || (self.check_count(k) == 1 && self.blocks_check(k, t)))
                        ==> #[trigger] legal_destinations.has(t),
                iter@.subset_of(sources@),
                appended_legal(*self, start, moves.pushed()),
                forall|mv: Move|
                    #![trigger self.is_legal(mv)]
                    (mv.move_type is Regular || mv.move_type is Promotion) && self.at(mv.from as int) == Some(
                        (PieceType::Pawn, x),
                    ) && self.is_legal(mv) && !iter@.contains(mv.from as int) ==> appended_has(
                        start,
                        moves.pushed(),
                        mv,
                    ),
                distinct_from(start, moves.pushed()),
                forall|i: int|
                    start.len() <= i < moves.pushed().len() ==> ((#[trigger] moves.pushed()[i]).move_type is Regular
                        || moves.pushed()[i].move_type is Promotion) && self.at(moves.pushed()[i].from as int)
                        == Some((PieceType::Pawn, x)) && !iter@.contains(moves.pushed()[i].from as int),
            ensures
                distinct_from(start, moves.pushed()),
                forall|i: int|
                    start.len() <= i < moves.pushed().len() ==> ((#[trigger] moves.pushed()[i]).move_type is Regular
                        || moves.pushed()[i].move_type is Promotion) && self.at(moves.pushed()[i].from as int)
                        == Some((PieceType::Pawn, x)),
                appended_legal(*self, start, moves.pushed()),
                forall|mv: Move|
                    #![trigger self.is_legal(mv)]
                    (mv.move_type is Regular || mv.move_type is Promotion) && self.at(mv.from as int) == Some(
                        (PieceType::Pawn, x),
                    ) && self.is_legal(mv) ==> appended_has(start, moves.pushed(), mv),
            decreases iter.word(),
        {
            let ghost before_iter = iter@;
            match iter.next() {
                Some(source) => {
                    let raw = self.pawn_moves(source);
                    let destinations = pins.restrict_moves(source, raw.and(legal_destinations), Ghost(k));
                    let ghost mid = moves.pushed();
                    proof {
                        assert(sources.has(source as int));
                        self.lemma_spec_pieces(PieceType::Pawn, x, source as int);
                        self.lemma_restricted_ok(pins, legal_destinations, source as int, raw, destinations);
                        assert forall|t: int| #[trigger] destinations.has(t) implies if back_rank(t) {
                            &&& self.is_legal(
                                Move {
                                    from: source as u8,
                                    to: t as u8,
                                    move_type: MoveType::Promotion(PieceType::Knight),
                                },
                            )
                            &&& self.is_legal(
                                Move {
                                    from: source as u8,
                                    to: t as u8,
                                    move_type: MoveType::Promotion(PieceType::Bishop),
                                },
                            )
                            &&& self.is_legal(
                                Move {
                                    from: source as u8,
                                    to: t as u8,
                                    move_type: MoveType::Promotion(PieceType::Rook),
                                },
                            )
                            &&& self.is_legal(
                                Move {
                                    from: source as u8,
                                    to: t as u8,
                                    move_type: MoveType::Promotion(PieceType::Queen),
                                },
                            )
                        } else {
                            self.is_legal(Move { from: source as u8, to: t as u8, move_type: MoveType::Regular })
                        } by {
                            assert(raw.has(t));
                            let m0 = Move { from: source as u8, to: t as u8, move_type: MoveType::Regular };
                            let m1 = Move {
                                from: source as u8,
                                to: t as u8,
                                move_type: MoveType::Promotion(PieceType::Knight),
                            };
                            let m2 = Move {
                                from: source as u8,
                                to: t as u8,
                                move_type: MoveType::Promotion(PieceType::Bishop),
                            };
                            let m3 = Move {
                                from: source as u8,
                                to: t as u8,
                                move_type: MoveType::Promotion(PieceType::Rook),
                            };
                            let m4 = Move {
                                from: source as u8,
                                to: t as u8,
                                move_type: MoveType::Promotion(PieceType::Queen),
                            };
                            if back_rank(t) {
                                self.lemma_step_legal(m1);
                                self.lemma_step_legal(m2);
                                self.lemma_step_legal(m3);
                                self.lemma_step_legal(m4);
                            } else {
                                self.lemma_step_legal(m0);
                            }
                        }
                    }
                    self.push_pawn_moves(source, destinations, moves);
                    proof {
                        lemma_appended_trans(*self, start, mid, moves.pushed());
                        let fin = moves.pushed();
                        assert forall|i: int, j: int|
                            #![trigger mid[i], fin[j]]
                            start.len() <= i < mid.len() <= j < fin.len() implies mid[i] != fin[j] by {
                            assert(!before_iter.contains(mid[i].from as int));
                            assert(fin[j].from == source as u8);
                        }
                        lemma_distinct_join(start, mid, fin);
                        assert forall|i: int| start.len() <= i < fin.len() implies ((#[trigger] fin[i]).move_type is Regular
                            || fin[i].move_type is Promotion) && self.at(fin[i].from as int) == Some((PieceType::Pawn, x))
                            && !iter@.contains(fin[i].from as int) by {
                            if i < mid.len() {
                                assert(fin[i] == fin.subrange(0, mid.len() as int)[i]);
                            } else {
                                assert(fin[i].from == source as u8);
                            }
                        }
                        assert forall|mv: Move|
                            #![trigger self.is_legal(mv)]
                            (mv.move_type is Regular || mv.move_type is Promotion) && self.at(mv.from as int) == Some(
                                (PieceType::Pawn, x),
                            ) && self.is_legal(mv) && !iter@.contains(mv.from as int) implies appended_has(
                            start,
                            moves.pushed(),
                            mv,
                        ) by {
                            if mv.from as int == source as int {
                                let t = mv.to as int;
                                self.lemma_dest_needed(mv);
                                lemma_coords(t);
                                assert(self.pawn_move_ok(source as int, t));
                                assert(raw.has(t));
                                assert(legal_destinations.has(t));
                                assert forall|d: Direction| #[trigger] pins.ray(d).has(source as int) implies pins.ray(d).has(t) by {
                                    assert(self.through(k, d, source as int));
                                }
                                assert(destinations.has(t));
                                assert(pawn_moves_in(mid, moves.pushed(), source as int, t));
                                match mv.move_type {
                                    MoveType::Promotion(q) => {
                                        assert(back_rank(t));
                                        assert(mv == Move { from: source as u8, to: t as u8, move_type: MoveType::Promotion(q) });
                                    },
                                    _ => {
                                        assert(!back_rank(t));
                                        assert(mv == Move { from: source as u8, to: t as u8, move_type: MoveType::Regular });
                                    },
                                }
                                assert(appended_has(mid, moves.pushed(), mv));
                                lemma_has_shorter(start, mid, moves.pushed(), mv);
                            } else {
                                assert(!before_iter.contains(mv.from as int));
                                lemma_has_extend(start, mid, moves.pushed(), mv);
                            }
                        }
                    }
                },
                None => {
                    break ;
                },
            }
        }
    }
}


impl Board {
    /// Pushes the king steps onto squares that the other side does not
    /// attack.
    fn push_king_moves<S: MoveSink>(&self, king_index: usize, moves: &mut S)
        requires
            self.playable_position(),
            king_index as int == self.king_sq(self.spec_active()),
            king_index < 64,
        ensures
            appended_legal(*self, old(moves).pushed(), final(moves).pushed()),
            forall|mv: Move|
                #![trigger self.is_legal(mv)]
                mv.move_type is Regular && self.at(mv.from as int) == Some((PieceType::King, self.spec_active()))
                    && self.is_legal(mv) ==> appended_has(old(moves).pushed(), final(moves).pushed(), mv),
            distinct_from(old(moves).pushed(), final(moves).pushed()),
            forall|i: int|
                old(moves).pushed().len() <= i < final(moves).pushed().len() ==> (#[trigger] final(moves).pushed()[i]).move_type == MoveType::Regular && final(moves).pushed()[i].from == king_index as u8,
    {
        let ghost start = moves.pushed();
        proof {
            assert(start.subrange(0, start.len() as int) =~= start);
            if self.spec_active() == Color::White {
                self.lemma_king_sq(Color::White);
            } else {
                self.lemma_king_sq(Color::Black);
            }
        }
        let targets = self.king_moves(king_index);
        let mut iter = targets.iter_indices();
        proof {
            assert forall|mv: Move|
                #![trigger self.is_legal(mv)]
                mv.move_type is Regular && self.at(mv.from as int) == Some((PieceType::King, self.spec_active()))
                    && self.is_legal(mv) && !iter@.contains(mv.to as int) implies appended_has(
                start,
                moves.pushed(),
                mv,
            ) by {
                self.lemma_king_step_needed(mv);
                assert(targets.has(mv.to as int));
            }
        }
        loop
            invariant
                self.playable_position(),
                king_index as int == self.king_sq(self.spec_active()),
                king_index < 64,
                self.at(king_index as int) == Some((PieceType::King, self.spec_active())),
                forall|t: int| #[trigger] targets.has(t) == self.piece_move_ok(PieceType::King, king_index as int, t),
                iter@.subset_of(targets@),
                appended_legal(*self, start, moves.pushed()),
                forall|mv: Move|
                    #![trigger self.is_legal(mv)]
                    mv.move_type is Regular && self.at(mv.from as int) == Some((PieceType::King, self.spec_active()))
                        && self.is_legal(mv) && !iter@.contains(mv.to as int) ==> appended_has(
                        start,
                        moves.pushed(),
                        mv,
                    ),
                distinct_from(start, moves.pushed()),
                forall|i: int|
                    start.len() <= i < moves.pushed().len() ==> (#[trigger] moves.pushed()[i]).move_type
                        == MoveType::Regular && moves.pushed()[i].from == king_index as u8 && !iter@.contains(
                        moves.pushed()[i].to as int,
                    ),
            ensures
                distinct_from(start, moves.pushed()),
                forall|i: int|
                    start.len() <= i < moves.pushed().len() ==> (#[trigger] moves.pushed()[i]).move_type
                        == MoveType::Regular && moves.pushed()[i].from == king_index as u8,
                appended_legal(*self, start, moves.pushed()),
                forall|mv: Move|
                    #![trigger self.is_legal(mv)]
                    mv.move_type is Regular && self.at(mv.from as int) == Some((PieceType::King, self.spec_active()))
                        && self.is_legal(mv) ==> appended_has(start, moves.pushed(), mv),
            decreases iter.word(),
        {
            let ghost before_iter = iter@;
            let ghost s2 = moves.pushed();
            match iter.next() {
                Some(destination) => {
                    if !self.is_attacked_ignore_king(destination) {
                        let mv = Move { from: king_index as u8, to: destination as u8, move_type: MoveType::Regular };
                        proof {
                            assert(targets.has(destination as int));
                            assert(self.follows_rules(mv));
                            self.lemma_king_move_safe(mv);
                            lemma_appended_push(*self, start, moves.pushed(), mv);
                            lemma_has_push(start, s2, mv);
                            assert forall|i: int| start.len() <= i < s2.len() implies #[trigger] s2[i] != mv by {
                                assert(!before_iter.contains(s2[i].to as int));
                            }
                            lemma_distinct_push(start, s2, mv);
                        }
                        moves.push(mv);
                    }
                    proof {
                        let fin = moves.pushed();
                        assert forall|i: int| start.len() <= i < fin.len() implies (#[trigger] fin[i]).move_type
                            == MoveType::Regular && fin[i].from == king_index as u8 && !iter@.contains(fin[i].to as int) by {
                            if i < s2.len() {
                                assert(fin[i] == fin.subrange(0, s2.len() as int)[i]);
                            }
                        }
                    }
                    proof {
                        assert(s2.len() <= moves.pushed().len());
                        assert(moves.pushed().subrange(0, s2.len() as int) =~= s2);
                        assert forall|mv: Move|
                            #![trigger self.is_legal(mv)]
                            mv.move_type is Regular && self.at(mv.from as int) == Some(
                                (PieceType::King, self.spec_active()),
                            ) && self.is_legal(mv) && !iter@.contains(mv.to as int) implies appended_has(
                            start,
                            moves.pushed(),
                            mv,
                        ) by {
                            self.lemma_king_step_needed(mv);
                            lemma_coords(mv.to as int);
                            if mv.to as int == destination as int {
                                assert(mv == Move {
                                    from: king_index as u8,
                                    to: destination as u8,
                                    move_type: MoveType::Regular,
                                });
                            } else {
                                assert(!before_iter.contains(mv.to as int));
                                lemma_has_extend(start, s2, moves.pushed(), mv);
                            }
                        }
                    }
                },
                None => {
                    proof {
                        assert forall|mv: Move|
                            #![trigger self.is_legal(mv)]
                            mv.move_type is Regular && self.at(mv.from as int) == Some(
                                (PieceType::King, self.spec_active()),
                            ) && self.is_legal(mv) implies appended_has(start, moves.pushed(), mv) by {
                            self.lemma_king_step_needed(mv);
                            assert(!iter@.contains(mv.to as int));
                        }
                    }
                    break ;
                },
            }
        }
    }

    /// Pushes the castling moves: the king is not in check, has the right,
    /// and the squares between king and rook are empty and those the king
    /// crosses are not attacked.
    fn push_castling_moves<S: MoveSink>(&self, king_index: usize, moves: &mut S)
        requires
            self.playable_position(),
            king_index as int == self.king_sq(self.spec_active()),
            king_index < 64,
            !attacked(self.placement(), king_index as int, self.spec_active().spec_opposite()),
        ensures
            appended_legal(*self, old(moves).pushed(), final(moves).pushed()),
            forall|mv: Move|
                #![trigger self.is_legal(mv)]
                mv.move_type is Castling && self.is_legal(mv) ==> appended_has(
                    old(moves).pushed(),
                    final(moves).pushed(),
                    mv,
                ),
            distinct_from(old(moves).pushed(), final(moves).pushed()),
            forall|i: int|
                old(moves).pushed().len() <= i < final(moves).pushed().len() ==> (#[trigger] final(moves).pushed()[i]).move_type is Castling,
    {
        let ghost start = moves.pushed();
        let x = self.active_color();
        proof {
            assert(start.subrange(0, start.len() as int) =~= start);
            if x == Color::White {
                self.lemma_king_sq(Color::White);
            } else {
                self.lemma_king_sq(Color::Black);
            }
        }
        let all_pieces = self.all_pieces();
        let rights = self.castling_rights();
        proof {
            self.lemma_occupied_word();
            if rights.spec_has(true, x) {
                assert(self.at(crate::board::king_home(x)) == Some((PieceType::King, x)));
            }
            if rights.spec_has(false, x) {
                assert(self.at(crate::board::king_home(x)) == Some((PieceType::King, x)));
            }
        }
        let ghost s0 = moves.pushed();
        if rights.kingside(x) && !all_pieces.contains(king_index + 1) && !all_pieces.contains(king_index + 2)
            && !self.is_attacked_ignore_king(king_index + 1) && !self.is_attacked_ignore_king(king_index + 2) {
            let mv = Move { from: king_index as u8, to: (king_index + 2) as u8, move_type: MoveType::Castling(true) };
            proof {
                assert(self.occupied().contains(king_index + 1) == (self.at(king_index + 1) is Some));
                assert(self.occupied().contains(king_index + 2) == (self.at(king_index + 2) is Some));
                assert(self.follows_rules(mv));
                self.lemma_castle_safe(mv);
                lemma_appended_push(*self, start, moves.pushed(), mv);
                lemma_has_push(start, s0, mv);
            }
            moves.push(mv);
        }
        let ghost mid = moves.pushed();
        proof {
            assert(mid.subrange(0, s0.len() as int) =~= s0);
            assert forall|mv: Move|
                #![trigger self.is_legal(mv)]
                mv.move_type == MoveType::Castling(true) && self.is_legal(mv) implies appended_has(start, mid, mv) by {
                assert(self.at(mv.from as int) == Some((PieceType::King, x)));
                assert(mv.from as int == king_index as int);
                assert(self.occupied().contains(king_index + 1) == (self.at(king_index + 1) is Some));
                assert(self.occupied().contains(king_index + 2) == (self.at(king_index + 2) is Some));
                assert(mv == Move { from: king_index as u8, to: (king_index + 2) as u8, move_type: MoveType::Castling(true) });
            }
        }
        if rights.queenside(x) && !all_pieces.contains(king_index - 1) && !all_pieces.contains(king_index - 2)
            && !all_pieces.contains(king_index - 3) && !self.is_attacked_ignore_king(king_index - 1)
            && !self.is_attacked_ignore_king(king_index - 2) {
            let mv = Move { from: king_index as u8, to: (king_index - 2) as u8, move_type: MoveType::Castling(false) };
            proof {
                assert(self.occupied().contains(king_index - 1) == (self.at(king_index - 1) is Some));
                assert(self.occupied().contains(king_index - 2) == (self.at(king_index - 2) is Some));
                assert(self.occupied().contains(king_index - 3) == (self.at(king_index - 3) is Some));
                assert(self.follows_rules(mv));
                self.lemma_castle_safe(mv);
                lemma_appended_push(*self, start, moves.pushed(), mv);
                lemma_has_push(start, mid, mv);
            }
            moves.push(mv);
        }
        proof {
            let fin = moves.pushed();
            assert(fin.len() <= start.len() + 2);
            assert forall|i: int| start.len() <= i < fin.len() implies (#[trigger] fin[i]).move_type is Castling by {
                if i < mid.len() {
                    assert(fin[i] == fin.subrange(0, mid.len() as int)[i]);
                }
            }
            assert forall|i: int, j: int|
                #![trigger fin[i], fin[j]]
                start.len() <= i < fin.len() && start.len() <= j < fin.len() && i != j implies fin[i] != fin[j] by {
                if i < mid.len() {
                    assert(fin[i] == fin.subrange(0, mid.len() as int)[i]);
                    assert(fin[i].move_type == MoveType::Castling(true));
                }
                if j < mid.len() {
                    assert(fin[j] == fin.subrange(0, mid.len() as int)[j]);
                    assert(fin[j].move_type == MoveType::Castling(true));
                }
            }
            assert(moves.pushed().subrange(0, mid.len() as int) =~= mid);
            assert forall|mv: Move|
                #![trigger self.is_legal(mv)]
                mv.move_type is Castling && self.is_legal(mv) implies appended_has(start, moves.pushed(), mv) by {
                assert(self.at(mv.from as int) == Some((PieceType::King, x)));
                assert(mv.from as int == king_index as int);
                if mv.move_type == MoveType::Castling(true) {
                    lemma_has_extend(start, mid, moves.pushed(), mv);
                } else {
                    assert(self.occupied().contains(king_index - 1) == (self.at(king_index - 1) is Some));
                    assert(self.occupied().contains(king_index - 2) == (self.at(king_index - 2) is Some));
                    assert(self.occupied().contains(king_index - 3) == (self.at(king_index - 3) is Some));
                    assert(mv == Move { from: king_index as u8, to: (king_index - 2) as u8, move_type: MoveType::Castling(false) });
                }
            }
        }
    }

    /// Pushes the legal en passant captures.
    #[verifier::rlimit(60)]
    #[verifier::spinoff_prover]
    fn push_en_passant_moves<S: MoveSink>(&self, legal_destinations: Bitboard, pins: &Pins, moves: &mut S)
        requires
            self.playable_position(),
            pins.describe(*self, self.king_sq(self.spec_active())),
            self.check_count(self.king_sq(self.spec_active())) <= 1,
            forall|t: int|
                #[trigger] legal_destinations.has(t) ==> (self.check_count(self.king_sq(self.spec_active())) == 0
                    || self.blocks_check(self.king_sq(self.spec_active()), t)),
            forall|t: int|
                is_square(t) && (self.check_count(self.king_sq(self.spec_active())) == 0 || (self.check_count(
                    self.king_sq(self.spec_active()),
                ) == 1 && self.blocks_check(self.king_sq(self.spec_active()), t))) ==> #[trigger] legal_destinations.has(t),
        ensures
            appended_legal(*self, old(moves).pushed(), final(moves).pushed()),
            forall|mv: Move|
                #![trigger self.is_legal(mv)]
                mv.move_type is EnPassant && self.is_legal(mv) ==> appended_has(
                    old(moves).pushed(),
                    final(moves).pushed(),
                    mv,
                ),
            distinct_from(old(moves).pushed(), final(moves).pushed()),
            forall|i: int|
                old(moves).pushed().len() <= i < final(moves).pushed().len() ==> (#[trigger] final(moves).pushed()[i]).move_type is EnPassant,
    {
        let ghost start = moves.pushed();
        proof {
            assert(start.subrange(0, start.len() as int) =~= start);
        }
        let x = self.active_color();
        let ghost k = self.king_sq(x);
        if let Some(ep) = self.en_passant_square() {
            let ep_square = ep as usize;
            proof {
                let i = self.metas().len() - 1;
                assert(self.metas()[i].en_passant_square matches Some(e) ==> e < 64);
            }
            let sources = pawn_attacks(1 - x.index(), ep_square).and(self.pawns(x));
            let mut iter = sources.iter_indices();
            proof {
                assert forall|mv: Move|
                    #![trigger self.is_legal(mv)]
                    mv.move_type is EnPassant && self.is_legal(mv) && !iter@.contains(mv.from as int) implies appended_has(
                    start,
                    moves.pushed(),
                    mv,
                ) by {
                    self.lemma_en_passant_generated(mv, mv.from as usize, ep_square, legal_destinations, pins);
                    assert(sources.has(mv.from as int));
                }
            }
            loop
                invariant
                    self.playable_position(),
                    x == self.spec_active(),
                    k == self.king_sq(x),
                    ep_square < 64,
                    self.meta().en_passant_square == Some(ep),
                    ep_square == ep,
                    forall|t: int|
                        #[trigger] sources.has(t) == (pawn_attack(1 - x.spec_index(), ep_square as int, t)
                            && self.spec_pieces(PieceType::Pawn, x).has(t)),
                    pins.describe(*self, k),
                    self.check_count(k) <= 1,
                    forall|t: int|
                        #[trigger] legal_destinations.has(t) ==> (self.check_count(k) == 0 || self.blocks_check(
                            k,
                            t,
                        )),
                    forall|t: int|
                        is_square(t) && (self.check_count(k) == 0 || (self.check_count(k) == 1 && self.blocks_check(
                            k,
                            t,
                        ))) ==> #[trigger] legal_destinations.has(t),
                    iter@.subset_of(sources@),
                    appended_legal(*self, start, moves.pushed()),
                    forall|mv: Move|
                        #![trigger self.is_legal(mv)]
                        mv.move_type is EnPassant && self.is_legal(mv) && !iter@.contains(mv.from as int)
                            ==> appended_has(start, moves.pushed(), mv),
                    distinct_from(start, moves.pushed()),
                    forall|i: int|
                        start.len() <= i < moves.pushed().len() ==> (#[trigger] moves.pushed()[i]).move_type is EnPassant
                            && !iter@.contains(moves.pushed()[i].from as int),
                ensures
                    distinct_from(start, moves.pushed()),
                    forall|i: int|
                        start.len() <= i < moves.pushed().len() ==> (#[trigger] moves.pushed()[i]).move_type is EnPassant,
                    appended_legal(*self, start, moves.pushed()),
                    forall|mv: Move|
                        #![trigger self.is_legal(mv)]
                        mv.move_type is EnPassant && self.is_legal(mv) ==> appended_has(start, moves.pushed(), mv),
                decreases iter.word(),
            {
                let ghost before_iter = iter@;
                let ghost s2 = moves.pushed();
                match iter.next() {
                    Some(source) => {
                        if self.en_passant_legal(source, ep_square, legal_destinations, pins) {
                            let target = (source & 0b111000) | (ep_square & 0b111);
                            proof {
                                lemma_target(source, ep_square);
                            }
                            let mv = Move {
                                from: source as u8,
                                to: ep_square as u8,
                                move_type: MoveType::EnPassant(target as u8),
                            };
                            proof {
                                assert(sources.has(source as int));
                                self.lemma_spec_pieces(PieceType::Pawn, x, source as int);
                                lemma_pawn_attack_reverse(x.spec_opposite(), ep_square as int, source as int);
                                assert(self.follows_rules(mv));
                                let t = target as int;
                                assert(occupancy(self.after(mv)) =~= self.occupied().insert(ep_square as int).remove(
                                    source as int,
                                ).remove(t)) by {
                                    lemma_coords(source as int);
                                    lemma_coords(ep_square as int);
                                }
                                self.lemma_en_passant_safe(mv);
                                lemma_appended_push(*self, start, moves.pushed(), mv);
                                lemma_has_push(start, s2, mv);
                                assert forall|i: int| start.len() <= i < s2.len() implies #[trigger] s2[i] != mv by {
                                    assert(!before_iter.contains(s2[i].from as int));
                                }
                                lemma_distinct_push(start, s2, mv);
                            }
                            moves.push(mv);
                        }
                        proof {
                            let fin = moves.pushed();
                            assert forall|i: int| start.len() <= i < fin.len() implies (#[trigger] fin[i]).move_type is EnPassant
                                && !iter@.contains(fin[i].from as int) by {
                                if i < s2.len() {
                                    assert(fin[i] == fin.subrange(0, s2.len() as int)[i]);
                                }
                            }
                            assert(s2.len() <= moves.pushed().len());
                            assert(moves.pushed().subrange(0, s2.len() as int) =~= s2);
                            assert forall|mv: Move|
                                #![trigger self.is_legal(mv)]
                                mv.move_type is EnPassant && self.is_legal(mv) && !iter@.contains(mv.from as int)
                                    implies appended_has(start, moves.pushed(), mv) by {
                                if mv.from as int == source as int {
                                    self.lemma_en_passant_generated(mv, source, ep_square, legal_destinations, pins);
                                    lemma_target(source, ep_square);
                                    assert(mv == Move {
                                        from: source as u8,
                                        to: ep_square as u8,
                                        move_type: MoveType::EnPassant(((source & 0b111000) | (ep_square & 0b111)) as u8),
                                    });
                                } else {
                                    assert(!before_iter.contains(mv.from as int));
                                    lemma_has_extend(start, s2, moves.pushed(), mv);
                                }
                            }
                        }
                    },
                    None => {
                        proof {
                            assert forall|mv: Move|
                                #![trigger self.is_legal(mv)]
                                mv.move_type is EnPassant && self.is_legal(mv) implies appended_has(
                                start,
                                moves.pushed(),
                                mv,
                            ) by {
                                self.lemma_en_passant_generated(mv, mv.from as usize, ep_square, legal_destinations, pins);
                                assert(!iter@.contains(mv.from as int));
                            }
                        }
                        break ;
                    },
                }
            }
        } else {
            proof {
                assert forall|mv: Move|
                    #![trigger self.is_legal(mv)]
                    mv.move_type is EnPassant && self.is_legal(mv) implies appended_has(
                    start,
                    moves.pushed(),
                    mv,
                ) by {
                    assert(self.follows_rules(mv));
                }
            }
        }
    }

    /// What `en_passant_legal` decides.
    spec fn en_passant_legal_spec(&self, source: usize, ep_square: usize, legal_destinations: Bitboard, pins: &Pins) -> bool {
        &&& (legal_destinations.has(ep_square as int) || legal_destinations.has(8 * (source / 8) + ep_square % 8))
        &&& (forall|d: Direction| #[trigger] pins.ray(d).has(source as int) ==> pins.ray(d).has(ep_square as int))
        &&& self.no_slider_reaches(
            self.king_sq(self.spec_active()),
            self.occupied().insert(ep_square as int).remove(source as int).remove(8 * (source / 8) + ep_square % 8),
        )
    }

    /// A legal en passant capture comes from a pawn that attacks the en
    /// passant square, and passes the test of `en_passant_legal`.
    proof fn lemma_en_passant_generated(
        &self,
        mv: Move,
        source: usize,
        ep_square: usize,
        legal_destinations: Bitboard,
        pins: &Pins,
    )
        requires
            self.playable_position(),
            mv.move_type is EnPassant,
            self.is_legal(mv),
            mv.from as int == source as int,
            self.meta().en_passant_square == Some(ep_square as u8),
            ep_square < 64,
            pins.describe(*self, self.king_sq(self.spec_active())),
            forall|t: int|
                is_square(t) && (self.check_count(self.king_sq(self.spec_active())) == 0 || (self.check_count(
                    self.king_sq(self.spec_active()),
                ) == 1 && self.blocks_check(self.king_sq(self.spec_active()), t))) ==> #[trigger] legal_destinations.has(t),
        ensures
            self.en_passant_legal_spec(source, ep_square, legal_destinations, pins),
            mv.to as int == ep_square as int,
            source < 64,
            pawn_attack(1 - self.spec_active().spec_index(), ep_square as int, source as int),
            self.spec_pieces(PieceType::Pawn, self.spec_active()).has(source as int),
            mv.move_type->EnPassant_0 as int == 8 * (source / 8) + ep_square % 8,
    {
        let x = self.spec_active();
        let k = self.king_sq(x);
        let src = mv.from as int;
        let dst = mv.to as int;
        let t = mv.move_type->EnPassant_0 as int;
        self.lemma_en_passant_needed(mv);
        self.lemma_en_passant_occupancy(mv);
        lemma_coords(src);
        lemma_coords(dst);
        lemma_pawn_attack_reverse(x, src, dst);
        self.lemma_spec_pieces(PieceType::Pawn, x, src);
        assert(occupancy(self.after(mv)) =~= self.occupied().insert(dst).remove(src).remove(t));
        assert forall|d: Direction| #[trigger] pins.ray(d).has(source as int) implies pins.ray(d).has(ep_square as int) by {
            assert(self.through(k, d, src));
        }
        if self.check_count(k) == 0 {
            assert(legal_destinations.has(dst));
        } else if self.blocks_check(k, dst) {
            assert(legal_destinations.has(dst));
        } else {
            assert(legal_destinations.has(t));
        }
    }

    /// Pushes every legal move of the side to move onto `moves`: king moves,
    /// castling, pawn moves, en passant captures, then the moves of knights,
    /// bishops, rooks and queens.
    pub fn generate_legal_moves<S: MoveSink>(&self, moves: &mut S)
        requires
            self.playable_position(),
        ensures
            appended_legal(*self, old(moves).pushed(), final(moves).pushed()),
            forall|mv: Move| #[trigger] self.is_legal(mv) ==> appended_has(old(moves).pushed(), final(moves).pushed(), mv),
            distinct_from(old(moves).pushed(), final(moves).pushed()),
            groups_in_order(*self, old(moves).pushed(), final(moves).pushed()),
    {
        let ghost s0 = moves.pushed();
        let (num_checks, blocks, pins) = self.calculate_checks_and_pins();
        let king_index = self.own_king();
        let ghost k = king_index as int;
        self.push_king_moves(king_index, moves);
        let ghost s1 = moves.pushed();
        proof {
            let x = self.spec_active();
            self.lemma_king_sq(x);
            assert forall|i: int| s0.len() <= i < s1.len() implies move_group(*self, #[trigger] s1[i]) == 0 by {
                assert(s1[i].from as int == k);
            }
            assert(groups_in_order(*self, s0, s1));
        }
        if num_checks > 1 {
            proof {
                assert forall|mv: Move| #[trigger] self.is_legal(mv) implies appended_has(s0, s1, mv) by {
                    self.lemma_only_king_steps(mv);
                }
            }
            return;
        }
        let legal_destinations = if num_checks != 0 {
            blocks
        } else {
            Bitboard(0xFFFF_FFFF_FFFF_FFFF)
        };
        proof {
            assert forall|t: int|
                is_square(t) && (self.check_count(k) == 0 || (self.check_count(k) == 1 && self.blocks_check(k, t)))
                    implies #[trigger] legal_destinations.has(t) by {
                if num_checks == 0 {
                    assert(bit(0xFFFF_FFFF_FFFF_FFFFu64, t as u64));
                }
            }
        }
        if num_checks == 0 {
            proof {
                self.lemma_no_check();
            }
            self.push_castling_moves(king_index, moves);
        }
        let ghost s2 = moves.pushed();
        proof {
            assert(s1.subrange(0, s1.len() as int) =~= s1);
            lemma_appended_trans(*self, s0, s1, s2);
        }
        self.push_all_pawn_moves(legal_destinations, &pins, moves);
        let ghost s3 = moves.pushed();
        self.push_en_passant_moves(legal_destinations, &pins, moves);
        let ghost s4 = moves.pushed();
        self.push_piece_moves(PieceType::Knight, legal_destinations, &pins, moves);
        let ghost s5 = moves.pushed();
        self.push_piece_moves(PieceType::Bishop, legal_destinations, &pins, moves);
        let ghost s6 = moves.pushed();
        self.push_piece_moves(PieceType::Rook, legal_destinations, &pins, moves);
        let ghost s7 = moves.pushed();
        self.push_piece_moves(PieceType::Queen, legal_destinations, &pins, moves);
        proof {
            let fin = moves.pushed();
            lemma_appended_trans(*self, s0, s2, s3);
            lemma_appended_trans(*self, s0, s3, s4);
            lemma_appended_trans(*self, s0, s4, s5);
            lemma_appended_trans(*self, s0, s5, s6);
            lemma_appended_trans(*self, s0, s6, s7);
            lemma_appended_trans(*self, s0, s7, fin);
            lemma_appended_trans(*self, s6, s7, fin);
            lemma_appended_trans(*self, s5, s6, fin);
            lemma_appended_trans(*self, s4, s5, fin);
            lemma_appended_trans(*self, s3, s4, fin);
            lemma_appended_trans(*self, s2, s3, fin);
            lemma_appended_trans(*self, s1, s2, fin);
            // the groups come one after another, so no move comes twice
            let x = self.spec_active();
            self.lemma_king_sq(x);
            assert forall|i: int| s0.len() <= i < s1.len() implies move_group(*self, #[trigger] s1[i]) < 1 by {
                assert(s1[i].from as int == k);
            }
            assert(distinct_from(s1, s2) && forall|i: int| s1.len() <= i < s2.len() ==> move_group(*self, #[trigger] s2[i]) == 1) by {
                if num_checks != 0 {
                    assert(s2 =~= s1);
                }
            }
            lemma_group_join(*self, s0, s1, s2, 1);
            lemma_group_join(*self, s0, s2, s3, 2);
            lemma_group_join(*self, s0, s3, s4, 3);
            lemma_group_join(*self, s0, s4, s5, 4);
            lemma_group_join(*self, s0, s5, s6, 5);
            lemma_group_join(*self, s0, s6, s7, 6);
            lemma_group_join(*self, s0, s7, fin, 7);
            assert forall|mv: Move| #[trigger] self.is_legal(mv) implies appended_has(s0, fin, mv) by {
                let x = self.spec_active();
                self.lemma_king_sq(x);
                match mv.move_type {
                    MoveType::Castling(_) => {
                        self.lemma_castling_unchecked(mv);
                        assert(appended_has(s1, s2, mv));
                        lemma_has_shorter(s0, s1, s2, mv);
                        lemma_has_extend(s0, s2, fin, mv);
                    },
                    MoveType::EnPassant(_) => {
                        assert(appended_has(s3, s4, mv));
                        lemma_has_shorter(s0, s3, s4, mv);
                        lemma_has_extend(s0, s4, fin, mv);
                    },
                    _ => {
                        let p = self.at(mv.from as int).unwrap().0;
                        if p == PieceType::King {
                            assert(appended_has(s0, s1, mv));
                            lemma_has_extend(s0, s1, fin, mv);
                        } else if p == PieceType::Pawn {
                            assert(appended_has(s2, s3, mv));
                            lemma_has_shorter(s0, s2, s3, mv);
                            lemma_has_extend(s0, s3, fin, mv);
                        } else if p == PieceType::Knight {
                            assert(appended_has(s4, s5, mv));
                            lemma_has_shorter(s0, s4, s5, mv);
                            lemma_has_extend(s0, s5, fin, mv);
                        } else if p == PieceType::Bishop {
                            assert(appended_has(s5, s6, mv));
                            lemma_has_shorter(s0, s5, s6, mv);
                            lemma_has_extend(s0, s6, fin, mv);
                        } else if p == PieceType::Rook {
                            assert(appended_has(s6, s7, mv));
                            lemma_has_shorter(s0, s6, s7, mv);
                            lemma_has_extend(s0, s7, fin, mv);
                        } else {
                            assert(appended_has(s7, fin, mv));
                            lemma_has_shorter(s0, s7, fin, mv);
                        }
                    },
                }
            }
        }
    }

    /// With two checks, a legal move is a king step.
    proof fn lemma_only_king_steps(&self, mv: Move)
        requires
            self.playable_position(),
            self.is_legal(mv),
            self.check_count(self.king_sq(self.spec_active())) > 1,
        ensures
            mv.move_type is Regular,
            self.at(mv.from as int) == Some((PieceType::King, self.spec_active())),
    {
        let x = self.spec_active();
        match mv.move_type {
            MoveType::Castling(_) => {
                self.lemma_castling_unchecked(mv);
            },
            MoveType::EnPassant(_) => {
                self.lemma_en_passant_needed(mv);
            },
            _ => {
                if self.at(mv.from as int) != Some((PieceType::King, x)) {
                    self.lemma_dest_needed(mv);
                } else {
                    assert(mv.move_type is Regular);
                }
            },
        }
    }

    /// Castling is legal only out of check.
    proof fn lemma_castling_unchecked(&self, mv: Move)
        requires
            self.playable_position(),
            mv.move_type is Castling,
            self.is_legal(mv),
        ensures
            self.check_count(self.king_sq(self.spec_active())) == 0,
    {
        let x = self.spec_active();
        self.lemma_king_sq(x);
        assert(mv.from as int == self.king_sq(x));
        if self.check_count(self.king_sq(x)) > 0 {
            self.lemma_checks_attack();
        }
    }
}


/// Clearing one castling flag keeps the others.
proof fn lemma_clear_right(state: (CastlingRights, u64), kingside: bool, color: Color)
    ensures
        forall|k: bool, c: Color|
            #[trigger] clear_right(state, kingside, color).0.spec_has(k, c) == (state.0.spec_has(k, c) && !(k
                == kingside && c == color)),
{
    state.0.lemma_spec_set(kingside, color, false);
}

/// Revoking rights for a piece leaving or being captured on a square clears
/// exactly the rights that it revokes.
proof fn lemma_revoke_rights(state: (CastlingRights, u64), pt: PieceType, sq: int)
    ensures
        forall|k: bool, c: Color|
            #[trigger] revoke_rights(state, pt, sq).0.spec_has(k, c) == (state.0.spec_has(k, c) && !revokes(
                pt,
                sq,
                k,
                c,
            )),
{
    lemma_clear_right(state, true, Color::White);
    lemma_clear_right(state, false, Color::White);
    lemma_clear_right(state, true, Color::Black);
    lemma_clear_right(state, false, Color::Black);
    lemma_clear_right(clear_right(state, true, Color::White), false, Color::White);
    lemma_clear_right(clear_right(state, true, Color::Black), false, Color::Black);
}

impl Board {
    /// The king square of each color holds its king.
    pub(crate) proof fn lemma_kings(&self)
        requires
            self.one_king(Color::White),
            self.one_king(Color::Black),
        ensures
            forall|c: Color| #[trigger] self.at(self.king_sq(c)) == Some((PieceType::King, c)) && is_square(self.king_sq(c)),
            forall|a: int, c: Color|
                #![trigger self.at(a), self.king_sq(c)]
                is_square(a) && self.at(a) == Some((PieceType::King, c)) ==> a == self.king_sq(c),
    {
        self.lemma_king_sq(Color::White);
        self.lemma_king_sq(Color::Black);
        assert forall|c: Color| #[trigger] self.at(self.king_sq(c)) == Some((PieceType::King, c)) && is_square(self.king_sq(c)) by {
            match c {
                Color::White => {},
                Color::Black => {},
            }
        }
        assert forall|a: int, c: Color|
            #![trigger self.at(a), self.king_sq(c)]
            is_square(a) && self.at(a) == Some((PieceType::King, c)) implies a == self.king_sq(c) by {
            match c {
                Color::White => {},
                Color::Black => {},
            }
        }
    }

    /// A move that follows the rules in a reachable position can be played.
    pub proof fn lemma_follows_applicable(&self, mv: Move)
        requires
            self.playable_position(),
            self.follows_rules(mv),
        ensures
            self.applicable(mv),
    {
        let x = self.spec_active();
        let y = x.spec_opposite();
        let from = mv.from as int;
        let to = mv.to as int;
        self.lemma_kings();
        lemma_coords(from);
        lemma_coords(to);
        match mv.move_type {
            MoveType::EnPassant(t) => {
                assert(self.en_passant_ok(to));
                assert(t as int == if x == Color::White { to - 8 } else { to + 8 });
            },
            MoveType::Castling(kingside) => {
                assert(self.at(king_home(x)) == Some((PieceType::King, x)));
                assert(self.at(rook_home(kingside, x)) == Some((PieceType::Rook, x)));
                assert(from == king_home(x));
            },
            MoveType::Regular => {
                if self.at(from) == Some((PieceType::King, x)) {
                    assert(king_step(from, to));
                }
            },
            MoveType::Promotion(_) => {},
        }
    }
}


impl Board {
    /// After a legal move, castling rights still rest on kings and rooks on
    /// their home squares.
    proof fn lemma_rights_kept(&self, mv: Move, b1: Board)
        requires
            self.legal_position(),
            self.is_legal(mv),
            Board::made(*self, mv, b1),
        ensures
            forall|k: bool, c: Color|
                #[trigger] b1.meta().castling_rights.spec_has(k, c) ==> b1.at(king_home(c)) == Some(
                    (PieceType::King, c),
                ) && b1.at(rook_home(k, c)) == Some((PieceType::Rook, c)),
    {
        reveal(Board::spec_make_meta);
        b1.lemma_meta_last();
        self.lemma_meta_last();
        let x = self.spec_active();
        let m0 = self.meta();
        let from = mv.from as int;
        let to = mv.to as int;
        let z1 = m0.zobrist ^ crate::zobrist::spec_color();
        assert(b1.meta() == self.spec_make_meta(mv));
        self.lemma_follows_applicable(mv);
        assert forall|k: bool, c: Color| #[trigger] b1.meta().castling_rights.spec_has(k, c) implies b1.at(
            king_home(c),
        ) == Some((PieceType::King, c)) && b1.at(rook_home(k, c)) == Some((PieceType::Rook, c)) by {
            let kh = king_home(c);
            let rh = rook_home(k, c);
            match mv.move_type {
                MoveType::Regular => {
                    let moving = self.type_at(from).unwrap();
                    let captured = self.type_at(to);
                    lemma_revoke_rights((m0.castling_rights, z1), moving, from);
                    let (r2, z2) = revoke_rights((m0.castling_rights, z1), moving, from);
                    let z3 = if moving == PieceType::Pawn && (from - to == 16 || to - from == 16) {
                        z2 ^ crate::zobrist::spec_en_passant((from + to) / 2)
                    } else {
                        z2
                    };
                    if let Some(cp) = captured {
                        lemma_revoke_rights((r2, z3 ^ crate::zobrist::spec_piece_square(cp, x.spec_opposite(), to)), cp, to);
                    }
                    assert(m0.castling_rights.spec_has(k, c));
                    assert(self.at(kh) == Some((PieceType::King, c)));
                    assert(self.at(rh) == Some((PieceType::Rook, c)));
                    assert(b1.at(kh) == self.after_at(mv, kh));
                    assert(b1.at(rh) == self.after_at(mv, rh));
                },
                MoveType::Promotion(p) => {
                    let captured = self.type_at(to);
                    if let Some(cp) = captured {
                        lemma_revoke_rights((m0.castling_rights, z1 ^ crate::zobrist::spec_piece_square(cp, x.spec_opposite(), to)), cp, to);
                    }
                    assert(m0.castling_rights.spec_has(k, c));
                    assert(self.at(kh) == Some((PieceType::King, c)));
                    assert(self.at(rh) == Some((PieceType::Rook, c)));
                    assert(b1.at(kh) == self.after_at(mv, kh));
                    assert(b1.at(rh) == self.after_at(mv, rh));
                },
                MoveType::EnPassant(t) => {
                    assert(m0.castling_rights.spec_has(k, c));
                    assert(self.at(kh) == Some((PieceType::King, c)));
                    assert(self.at(rh) == Some((PieceType::Rook, c)));
                    assert(b1.at(kh) == self.after_at(mv, kh));
                    assert(b1.at(rh) == self.after_at(mv, rh));
                },
                MoveType::Castling(kingside) => {
                    lemma_clear_right((m0.castling_rights, z1), true, x);
                    lemma_clear_right(clear_right((m0.castling_rights, z1), true, x), false, x);
                    assert(m0.castling_rights.spec_has(k, c));
                    assert(c != x);
                    assert(self.at(kh) == Some((PieceType::King, c)));
                    assert(self.at(rh) == Some((PieceType::Rook, c)));
                    assert(b1.at(kh) == self.after_at(mv, kh));
                    assert(b1.at(rh) == self.after_at(mv, rh));
                },
            }
        }
    }

    /// After a legal move, the en passant square, if any, rests on the pawn
    /// that just passed it.
    proof fn lemma_en_passant_kept(&self, mv: Move, b1: Board)
        requires
            self.legal_position(),
            self.is_legal(mv),
            Board::made(*self, mv, b1),
        ensures
            b1.meta().en_passant_square matches Some(e) ==> b1.en_passant_ok(e as int),
    {
        reveal(Board::spec_make_meta);
        b1.lemma_meta_last();
        self.lemma_meta_last();
        assert(b1.meta() == self.spec_make_meta(mv));
        let from = mv.from as int;
        let to = mv.to as int;
        if let Some(e) = b1.meta().en_passant_square {
            assert(mv.move_type is Regular);
            lemma_coords(from);
            lemma_coords(to);
            let e = e as int;
            assert(e == (from + to) / 2);
            assert(b1.at(e) == self.after_at(mv, e));
            assert(b1.at(to) == self.after_at(mv, to));
            assert(b1.at(e - 8) == self.after_at(mv, e - 8));
            assert(b1.at(e + 8) == self.after_at(mv, e + 8));
        }
    }
}


impl Board {
    /// A move that follows the rules never lands on the other king.
    proof fn lemma_no_king_capture(&self, mv: Move)
        requires
            self.legal_position(),
            self.follows_rules(mv),
        ensures
            self.at(mv.to as int) != Some((PieceType::King, self.spec_active().spec_opposite())),
    {
        let x = self.spec_active();
        let y = x.spec_opposite();
        let from = mv.from as int;
        let to = mv.to as int;
        let place = self.placement();
        if self.at(to) == Some((PieceType::King, y)) {
            match mv.move_type {
                MoveType::EnPassant(_) => {
                    assert(self.en_passant_ok(to));
                },
                MoveType::Castling(_) => {},
                _ => {
                    let p = self.at(from).unwrap().0;
                    assert(self.at(from) == Some((p, x)));
                    assert(place(from) == Some((p, x)));
                    assert(attacks_square(p, x, from, to, occupancy(place)));
                    assert(attacked(place, to, x));
                    assert(y.spec_opposite() == x);
                    assert(place(to) == Some((PieceType::King, y)));
                    assert(in_check(place, y));
                },
            }
        }
    }

    /// The board after a move is what the move makes of the squares.
    proof fn lemma_after_placement(&self, mv: Move, b1: Board)
        requires
            self.applicable(mv),
            Board::made(*self, mv, b1),
        ensures
            b1.placement() =~= self.after(mv),
    {
        assert forall|sq: int| #[trigger] b1.placement()(sq) == self.after(mv)(sq) by {
            if !is_square(sq) {
                lemma_coords(mv.from as int);
            }
        }
    }

    /// After a legal move, each side still has exactly one king; the other
    /// side's king has not moved.
    proof fn lemma_kings_kept(&self, mv: Move, b1: Board)
        requires
            self.legal_position(),
            self.is_legal(mv),
            Board::made(*self, mv, b1),
        ensures
            b1.one_king(Color::White),
            b1.one_king(Color::Black),
            b1.king_sq(self.spec_active().spec_opposite()) == self.king_sq(self.spec_active().spec_opposite()),
    {
        let x = self.spec_active();
        let y = x.spec_opposite();
        let from = mv.from as int;
        let to = mv.to as int;
        self.lemma_kings();
        self.lemma_follows_applicable(mv);
        self.lemma_no_king_capture(mv);
        let ky = self.king_sq(y);
        let kx = self.king_sq(x);
        let king_moves = self.at(from) == Some((PieceType::King, x));
        let kx1 = if king_moves { to } else { kx };
        assert(b1.at(ky) == self.after_at(mv, ky));
        assert(b1.at(ky) == Some((PieceType::King, y)));
        assert(b1.at(kx1) == self.after_at(mv, kx1));
        assert(b1.at(kx1) == Some((PieceType::King, x)));
        assert forall|a: int, b: int|
            #![trigger b1.at(a), b1.at(b)]
            is_square(a) && is_square(b) && b1.at(a) == Some((PieceType::King, y)) && b1.at(b) == Some(
                (PieceType::King, y),
            ) implies a == b by {
            assert(b1.at(a) == self.after_at(mv, a));
            assert(b1.at(b) == self.after_at(mv, b));
        }
        assert forall|a: int, b: int|
            #![trigger b1.at(a), b1.at(b)]
            is_square(a) && is_square(b) && b1.at(a) == Some((PieceType::King, x)) && b1.at(b) == Some(
                (PieceType::King, x),
            ) implies a == b by {
            assert(b1.at(a) == self.after_at(mv, a));
            assert(b1.at(b) == self.after_at(mv, b));
            if king_moves {
                assert(from == kx);
            }
        }
        if x == Color::White {
            assert(b1.one_king(Color::White));
            assert(b1.one_king(Color::Black));
        } else {
            assert(b1.one_king(Color::White));
            assert(b1.one_king(Color::Black));
        }
        b1.lemma_king_sq(y);
    }

    /// Playing a legal move from a position that play can reach leads to a
    /// position that play can reach.
    pub proof fn lemma_legal_position_kept(&self, mv: Move, b1: Board)
        requires
            self.legal_position(),
            self.is_legal(mv),
            Board::made(*self, mv, b1),
        ensures
            b1.legal_position(),
    {
        let x = self.spec_active();
        let y = x.spec_opposite();
        self.lemma_follows_applicable(mv);
        self.lemma_rights_kept(mv, b1);
        self.lemma_en_passant_kept(mv, b1);
        self.lemma_kings_kept(mv, b1);
        self.lemma_after_placement(mv, b1);
        self.lemma_kings();
        let to = mv.to as int;
        let ky = self.king_sq(y);
        assert(b1.spec_active() == y);
        assert(b1.valid());
        assert(!in_check(b1.placement(), x));
        b1.lemma_apart_of_no_check();
        let place = self.placement();
        assert forall|a: int| #[trigger] b1.knight_checker(ky, a) implies a == to by {
            assert(b1.at(a) == self.after_at(mv, a));
            if a != to {
                assert(self.at(a) == Some((PieceType::Knight, x)));
                assert(place(a) == Some((PieceType::Knight, x)));
                lemma_step_reverse(ky, a);
                assert(attacks_square(PieceType::Knight, x, a, ky, occupancy(place)));
                assert(attacked(place, ky, x));
                assert(place(ky) == Some((PieceType::King, y)));
                assert(in_check(place, y));
            }
        }
        assert forall|a: int| #[trigger] b1.pawn_checker(ky, a) implies a == to by {
            assert(b1.at(a) == self.after_at(mv, a));
            if a != to {
                assert(self.at(a) == Some((PieceType::Pawn, x)));
                assert(place(a) == Some((PieceType::Pawn, x)));
                lemma_pawn_attack_reverse(y, ky, a);
                assert(attacks_square(PieceType::Pawn, x, a, ky, occupancy(place)));
                assert(attacked(place, ky, x));
                assert(place(ky) == Some((PieceType::King, y)));
                assert(in_check(place, y));
            }
        }
    }
}


impl Board {
    /// `other` holds the same position as `self`: the same pieces, side to
    /// move, counters, history and metadata, the current hash aside.
    pub open spec fn same_position(&self, other: Board) -> bool {
        &&& other.wf()
        &&& forall|sq: int| #[trigger] other.at(sq) == self.at(sq)
        &&& other.spec_active() == self.spec_active()
        &&& other.spec_halfmove() == self.spec_halfmove()
        &&& other.history() == self.history()
        &&& other.metas().len() == self.metas().len()
        &&& forall|i: int| 0 <= i < self.metas().len() - 1 ==> #[trigger] other.metas()[i] == self.metas()[i]
        &&& other.meta().castling_rights == self.meta().castling_rights
        &&& other.meta().en_passant_square == self.meta().en_passant_square
        &&& other.meta().rule50 == self.meta().rule50
    }

    /// Boards holding the same position agree on legality.
    pub proof fn lemma_same_position(&self, other: Board)
        requires
            self.same_position(other),
        ensures
            self.legal_position() ==> other.legal_position(),
            forall|mv: Move| #[trigger] other.is_legal(mv) == self.is_legal(mv),
            forall|mv: Move| #[trigger] other.applicable(mv) == self.applicable(mv),
            forall|mv: Move| #[trigger] other.spec_captured(mv) == self.spec_captured(mv),
    {
        assert(other.placement() =~= self.placement());
        assert(other.ignoring_king() =~= self.ignoring_king());
        assert(other.occupied() =~= self.occupied());
        assert forall|mv: Move| #[trigger] other.after(mv) =~= self.after(mv) by {}
        assert forall|mv: Move| #[trigger] other.is_legal(mv) == self.is_legal(mv) by {
            assert(other.after(mv) == self.after(mv));
            match mv.move_type {
                MoveType::Regular => {
                    let from = mv.from as int;
                    if let Some((p, c)) = self.at(from) {
                        assert(other.occupied() == self.occupied());
                    }
                },
                _ => {},
            }
        }
        assert forall|k: int, d: Direction| #[trigger] other.checked_along(k, d) == self.checked_along(k, d) by {
            let y = self.spec_active().spec_opposite();
            if other.checked_along(k, d) {
                let t = choose|t: int|
                    #![trigger other.at(t)]
                    clear_path(d, k, t, other.occupied()) && slider_for(d, other.at(t), y);
                assert(self.at(t) == other.at(t));
            }
            if self.checked_along(k, d) {
                let t = choose|t: int|
                    #![trigger self.at(t)]
                    clear_path(d, k, t, self.occupied()) && slider_for(d, self.at(t), y);
                assert(self.at(t) == other.at(t));
            }
        }
        assert forall|k: int, d: Direction| #[trigger] other.first_ray(k, d) == self.first_ray(k, d) by {
            assert(other.first_ray(k, d) =~= self.first_ray(k, d));
        }
        if self.legal_position() {
            other.lemma_meta_last();
            self.lemma_meta_last();
            let k = self.king_sq(self.spec_active());
            self.lemma_kings();
            assert(other.one_king(Color::White));
            assert(other.one_king(Color::Black));
            other.lemma_kings();
            assert forall|c: Color| #[trigger] other.king_sq(c) == self.king_sq(c) by {
                assert(self.at(other.king_sq(c)) == Some((PieceType::King, c)));
            }
            assert(other.valid());
            assert(other.one_king(Color::White));
            assert(other.one_king(Color::Black));
            other.lemma_apart_of_no_check();
            assert forall|a: int| #[trigger] other.knight_checker(k, a) == self.knight_checker(k, a) by {}
            assert forall|a: int| #[trigger] other.pawn_checker(k, a) == self.pawn_checker(k, a) by {}
        }
    }

    /// The legal moves of the side to move.
    pub fn legal_moves(&mut self) -> (r: Vec<Move>)
        requires
            old(self).playable_position(),
        ensures
            *final(self) == *old(self),
            forall|i: int| 0 <= i < r.len() ==> #[trigger] old(self).is_legal(r@[i]),
            forall|mv: Move| #[trigger] old(self).is_legal(mv) <==> r@.contains(mv),
            r@.no_duplicates(),
            r@.len() == legal_move_set(*old(self)).len(),
            groups_in_order(*old(self), Seq::<Move>::empty(), r@),
    {
        let mut legal_moves: Vec<Move> = Vec::new();
        self.generate_legal_moves(&mut legal_moves);
        proof {
            assert(distinct_from(Seq::<Move>::empty(), legal_moves@));
            lemma_legal_count(*old(self), Seq::<Move>::empty(), legal_moves@);
            assert forall|i: int| 0 <= i < legal_moves.len() implies #[trigger] old(self).is_legal(legal_moves@[i]) by {
                assert(legal_moves@ == legal_moves.pushed());
            }
            assert forall|mv: Move| #[trigger] old(self).is_legal(mv) <==> legal_moves@.contains(mv) by {
                if old(self).is_legal(mv) {
                    assert(appended_has(Seq::<Move>::empty(), legal_moves@, mv));
                    let i = choose|i: int| #![trigger legal_moves@[i]] 0 <= i < legal_moves@.len() && legal_moves@[i] == mv;
                    assert(legal_moves@.contains(mv));
                }
                if legal_moves@.contains(mv) {
                    let i = choose|i: int| 0 <= i < legal_moves@.len() && legal_moves@[i] == mv;
                    assert(old(self).is_legal(legal_moves@[i]));
                }
            }
        }
        legal_moves
    }

    /// Whether `mv` is among the legal moves of the side to move.
    pub fn is_legal_move(&mut self, mv: Move) -> (r: bool)
        requires
            old(self).playable_position(),
        ensures
            *final(self) == *old(self),
            r == old(self).is_legal(mv),
    {
        let legal_moves = self.legal_moves();
        let mut i: usize = 0;
        while i < legal_moves.len()
            invariant
                i <= legal_moves.len(),
                *self == *old(self),
                forall|j: int| 0 <= j < legal_moves.len() ==> #[trigger] old(self).is_legal(legal_moves@[j]),
                old(self).is_legal(mv) <==> legal_moves@.contains(mv),
                forall|j: int| 0 <= j < i ==> #[trigger] legal_moves@[j] != mv,
            decreases legal_moves.len() - i,
        {
            if legal_moves[i] == mv {
                proof {
                    assert(old(self).is_legal(legal_moves@[i as int]));
                }
                return true;
            }
            i += 1;
        }
        proof {
            if legal_moves@.contains(mv) {
                let j = choose|j: int| 0 <= j < legal_moves@.len() && legal_moves@[j] == mv;
                assert(legal_moves@[j] != mv);
            }
        }
        false
    }

    /// Plays `mv` if it is legal, returning the type of the piece it
    /// captured; otherwise leaves the board as it is and names the move in
    /// the error.
    pub fn make_move(&mut self, mv: Move) -> (r: Result<Option<PieceType>, String>)
        requires
            old(self).playable_position(),
            old(self).spec_halfmove() < u32::MAX,
            mv.spec_coordinate() is Some,
        ensures
            match r {
                Ok(captured) => {
                    &&& old(self).is_legal(mv)
                    &&& Board::made(*old(self), mv, *final(self))
                    &&& captured == old(self).spec_captured(mv)
                    &&& old(self).legal_position() ==> final(self).legal_position()
                    &&& final(self).meta().en_passant_square == if mv.move_type == MoveType::Regular && old(self).at(
                        mv.from as int,
                    ) == Some((PieceType::Pawn, old(self).spec_active())) && (mv.from - mv.to == 16 || mv.to - mv.from
                        == 16) {
                        Some(((mv.from + mv.to) / 2) as u8)
                    } else {
                        None
                    }
                },
                Err(e) => {
                    &&& !old(self).is_legal(mv)
                    &&& *final(self) == *old(self)
                    &&& e@ == "Illegal move: "@ + mv.spec_coordinate().unwrap()
                },
            },
    {
        if !self.is_legal_move(mv) {
            let mut e = String::from_str("Illegal move: ");
            let name = mv.to_coordinate().unwrap();
            e.append(name.as_str());
            proof {
                reveal_strlit("Illegal move: ");
            }
            return Err(e);
        }
        proof {
            self.lemma_follows_applicable(mv);
        }
        let ghost b0 = *self;
        let captured = self.make_move_unchecked(mv);
        proof {
            if b0.legal_position() {
                b0.lemma_legal_position_kept(mv, *self);
            }
            reveal(Board::spec_make_meta);
            self.lemma_meta_last();
            assert(self.meta() == b0.spec_make_meta(mv));
        }
        Ok(captured)
    }
}


impl Board {
    /// Taking back a move made from a position restores that position, even
    /// when the position in between was only held, not kept, between the two.
    pub(crate) proof fn lemma_restored(b0: Board, mv: Move, b1: Board, b1x: Board, b2: Board)
        requires
            b0.wf(),
            b0.applicable(mv),
            Board::made(b0, mv, b1),
            b1.same_position(b1x),
            Board::unmade(b1x, b2),
        ensures
            b0.same_position(b2),
            b2.meta().zobrist == b0.meta().zobrist ^ crate::zobrist::spec_color(),
    {
        let n = b1.metas().len();
        assert forall|sq: int| is_square(sq) implies #[trigger] b2.at(sq) == b1.undo_at(sq) by {
            assert(b2.at(sq) == b1x.undo_at(sq));
        }
        assert(b2.metas() =~= b1.metas().subrange(0, n - 2).push(
            crate::board::BoardMetadata { zobrist: b1.metas()[n - 2].zobrist ^ crate::zobrist::spec_color(), ..b1.metas()[n - 2] },
        )) by {
            assert(b1x.metas()[n - 2] == b1.metas()[n - 2]);
            assert(b1x.metas().subrange(0, n - 2) =~= b1.metas().subrange(0, n - 2));
        }
        assert(Board::unmade(b1, b2));
        lemma_unmake_inverts_make(b0, mv, b1, b2);
        b0.lemma_meta_last();
        b2.lemma_meta_last();
    }

}

/// The legal moves of a position, as a set.
pub open spec fn legal_move_set(b: Board) -> Set<Move> {
    Set::new(|mv: Move| b.is_legal(mv))
}

/// A run of distinct moves holding exactly the legal moves has as many moves
/// as there are legal moves.
pub(crate) proof fn lemma_legal_count(b: Board, before: Seq<Move>, after: Seq<Move>)
    requires
        appended_legal(b, before, after),
        distinct_from(before, after),
        forall|mv: Move| #[trigger] b.is_legal(mv) ==> appended_has(before, after, mv),
    ensures
        after.len() - before.len() == legal_move_set(b).len(),
        legal_move_set(b).finite(),
{
    let seg = after.subrange(before.len() as int, after.len() as int);
    assert(seg.no_duplicates()) by {
        assert forall|i: int, j: int| 0 <= i < seg.len() && 0 <= j < seg.len() && i != j implies seg[i] != seg[j] by {
            assert(seg[i] == after[before.len() + i]);
            assert(seg[j] == after[before.len() + j]);
        }
    }
    assert(seg.to_set() =~= legal_move_set(b)) by {
        assert forall|mv: Move| seg.to_set().contains(mv) <==> #[trigger] legal_move_set(b).contains(mv) by {
            if seg.contains(mv) {
                let i = choose|i: int| 0 <= i < seg.len() && seg[i] == mv;
                assert(seg[i] == after[before.len() + i]);
                assert(b.is_legal(after[before.len() + i]));
            }
            if b.is_legal(mv) {
                let i = choose|i: int| #![trigger after[i]] before.len() <= i < after.len() && after[i] == mv;
                assert(seg[i - before.len()] == mv);
            }
        }
    }
    seg.unique_seq_to_set();
}

/// A board holds its own position.
pub(crate) proof fn lemma_same_position_refl(b: Board)
    requires
        b.wf(),
    ensures
        b.same_position(b),
{
}

/// Holding the same position is transitive.
pub(crate) proof fn lemma_same_position_trans(a: Board, b: Board, c: Board)
    requires
        a.same_position(b),
        b.same_position(c),
    ensures
        a.same_position(c),
{
}


/// The light squares (b1, a2, ...): those whose rank and file sum to an odd
/// number.
pub open spec fn light_square(sq: int) -> bool {
    (rank_of(sq) + file_of(sq)) % 2 == 1
}

proof fn lemma_light_mask(sq: u64)
    requires
        sq < 64,
    ensures
        bit(0x55AA_55AA_55AA_55AAu64, sq) == light_square(sq as int),
{
    assert(bit(0x55AA_55AA_55AA_55AAu64, sq) == ((sq / 8 + sq % 8) % 2 == 1)) by (bit_vector)
        requires
            sq < 64,
    ;
}

impl Board {
    /// A knight or a bishop stands on `sq`.
    pub open spec fn minor_at(&self, sq: int) -> bool {
        self.at(sq) matches Some((p, _)) && (p == PieceType::Knight || p == PieceType::Bishop)
    }

    /// Neither side can ever checkmate: no pawns, rooks or queens, and either
    /// at most one knight or bishop on the board, or no knights and all the
    /// bishops on squares of one color.
    pub open spec fn insufficient_material(&self) -> bool {
        &&& forall|sq: int|
            is_square(sq) ==> !(#[trigger] self.at(sq) matches Some((p, _)) && (p == PieceType::Pawn || p
                == PieceType::Rook || p == PieceType::Queen))
        &&& ((forall|a: int, b: int|
            #![trigger self.minor_at(a), self.minor_at(b)]
            is_square(a) && is_square(b) && self.minor_at(a) && self.minor_at(b) ==> a == b) || ((forall|a: int|
            is_square(a) ==> !(#[trigger] self.at(a) matches Some((p, _)) && p == PieceType::Knight)) && forall|
            a: int,
            b: int,
        |
            #![trigger self.at(a), self.at(b)]
            is_square(a) && is_square(b) && (self.at(a) matches Some((p, _)) && p == PieceType::Bishop) && (self.at(
                b,
            ) matches Some((q, _)) && q == PieceType::Bishop) ==> light_square(a) == light_square(b)))
    }

    /// Whether neither side has enough material left to checkmate.
    pub fn is_insufficient_material(&self) -> (r: bool)
        requires
            self.placement_ok(),
        ensures
            r == self.insufficient_material(),
    {
        let pawns = self.pawns(Color::White).or(self.pawns(Color::Black));
        let rooks = self.rooks(Color::White).or(self.rooks(Color::Black));
        let queens = self.queens(Color::White).or(self.queens(Color::Black));
        let knights = self.knights(Color::White).or(self.knights(Color::Black));
        let bishops = self.bishops(Color::White).or(self.bishops(Color::Black));
        let heavy = pawns.or(rooks).or(queens);
        let minors = knights.or(bishops);
        proof {
            assert forall|sq: int| #[trigger] heavy.has(sq) == (is_square(sq) && (self.at(sq) matches Some((p, _)) && (p
                == PieceType::Pawn || p == PieceType::Rook || p == PieceType::Queen))) by {
                self.lemma_spec_pieces(PieceType::Pawn, Color::White, sq);
                self.lemma_spec_pieces(PieceType::Pawn, Color::Black, sq);
                self.lemma_spec_pieces(PieceType::Rook, Color::White, sq);
                self.lemma_spec_pieces(PieceType::Rook, Color::Black, sq);
                self.lemma_spec_pieces(PieceType::Queen, Color::White, sq);
                self.lemma_spec_pieces(PieceType::Queen, Color::Black, sq);
            }
            assert forall|sq: int| #[trigger] knights.has(sq) == (is_square(sq) && (self.at(sq) matches Some((p, _)) && p
                == PieceType::Knight)) by {
                self.lemma_spec_pieces(PieceType::Knight, Color::White, sq);
                self.lemma_spec_pieces(PieceType::Knight, Color::Black, sq);
            }
            assert forall|sq: int| #[trigger] bishops.has(sq) == (is_square(sq) && (self.at(sq) matches Some((p, _)) && p
                == PieceType::Bishop)) by {
                self.lemma_spec_pieces(PieceType::Bishop, Color::White, sq);
                self.lemma_spec_pieces(PieceType::Bishop, Color::Black, sq);
            }
            assert forall|sq: int| #[trigger] minors.has(sq) == (is_square(sq) && self.minor_at(sq)) by {
                assert(knights.has(sq) == (is_square(sq) && (self.at(sq) matches Some((p, _)) && p == PieceType::Knight)));
                assert(bishops.has(sq) == (is_square(sq) && (self.at(sq) matches Some((p, _)) && p == PieceType::Bishop)));
            }
            lemma_nonzero(heavy);
            lemma_nonzero(minors);
            lemma_nonzero(knights);
        }
        if !heavy.is_empty() {
            proof {
                let sq = choose|sq: int| heavy.has(sq);
                assert(self.at(sq) == self.at(sq));  // brings the facts about square `sq` into play
            }
            return false;
        }
        match minors.lsb_index() {
            None => {
                proof {
                    assert forall|sq: int| is_square(sq) implies !(#[trigger] self.at(sq) matches Some((p, _)) && (p
                        == PieceType::Pawn || p == PieceType::Rook || p == PieceType::Queen)) by {
                        assert(!heavy.has(sq));
                    }
                    assert forall|a: int, b: int|
                        #![trigger self.minor_at(a), self.minor_at(b)]
                        is_square(a) && is_square(b) && self.minor_at(a) && self.minor_at(b) implies a == b by {
                        assert(!minors.has(a));
                    }
                }
                return true;
            },
            Some(first) => {
                let rest = minors.with_clear(first);
                proof {
                    lemma_nonzero(rest);
                    assert forall|sq: int| #[trigger] rest.has(sq) == (minors.has(sq) && sq != first) by {
                        assert(rest@.contains(sq) == (minors@.contains(sq) && sq != first));
                    }
                }
                if rest.is_empty() {
                    proof {
                        assert forall|sq: int| is_square(sq) implies !(#[trigger] self.at(sq) matches Some((p, _)) && (p
                            == PieceType::Pawn || p == PieceType::Rook || p == PieceType::Queen)) by {
                            assert(!heavy.has(sq));
                        }
                        assert forall|a: int, b: int|
                            #![trigger self.minor_at(a), self.minor_at(b)]
                            is_square(a) && is_square(b) && self.minor_at(a) && self.minor_at(b) implies a == b by {
                            assert(minors.has(a) && minors.has(b));
                            assert(!rest.has(a) && !rest.has(b));
                        }
                    }
                    return true;
                }
                proof {
                    let second = choose|sq: int| rest.has(sq);
                    assert(self.minor_at(first as int) && self.minor_at(second));
                }
            },
        }
        let light = Bitboard(0x55AA_55AA_55AA_55AA);
        let light_bishops = bishops.and(light);
        let dark_bishops = bishops.without(light);
        proof {
            lemma_nonzero(light_bishops);
            lemma_nonzero(dark_bishops);
            assert forall|sq: int| #[trigger] light.has(sq) == (is_square(sq) && light_square(sq)) by {
                if is_square(sq) {
                    lemma_light_mask(sq as u64);
                }
            }
            if knights.0 != 0 {
                let sq = choose|sq: int| knights.has(sq);
                assert(self.at(sq) == self.at(sq));  // brings the facts about square `sq` into play
            }
            if light_bishops.0 != 0 && dark_bishops.0 != 0 {
                let a = choose|sq: int| light_bishops.has(sq);
                let b = choose|sq: int| dark_bishops.has(sq);
                assert(self.at(a) == self.at(a) && self.at(b) == self.at(b));
            }
        }
        let r = knights.is_empty() && (light_bishops.is_empty() || dark_bishops.is_empty());
        proof {
            assert forall|sq: int| is_square(sq) implies !(#[trigger] self.at(sq) matches Some((p, _)) && (p
                == PieceType::Pawn || p == PieceType::Rook || p == PieceType::Queen)) by {
                assert(!heavy.has(sq));
            }
            if r {
                assert forall|a: int| is_square(a) implies !(#[trigger] self.at(a) matches Some((p, _)) && p
                    == PieceType::Knight) by {
                    assert(!knights.has(a));
                }
                assert forall|a: int, b: int|
                    #![trigger self.at(a), self.at(b)]
                    is_square(a) && is_square(b) && (self.at(a) matches Some((p, _)) && p == PieceType::Bishop) && (
                    self.at(b) matches Some((q, _)) && q == PieceType::Bishop) implies light_square(a) == light_square(
                    b,
                ) by {
                    assert(bishops.has(a) && bishops.has(b));
                    assert(light.has(a) == light_square(a));
                    assert(light.has(b) == light_square(b));
                    assert(light_bishops.has(a) == (bishops.has(a) && light.has(a)));
                    assert(light_bishops.has(b) == (bishops.has(b) && light.has(b)));
                    assert(dark_bishops.has(a) == (bishops.has(a) && !light.has(a)));
                    assert(dark_bishops.has(b) == (bishops.has(b) && !light.has(b)));
                }
            }
        }
        r
    }

    /// Whether the king of the side to move is attacked.
    pub fn in_check(&self) -> (r: bool)
        requires
            self.playable_position(),
        ensures
            r == in_check(self.placement(), self.spec_active()),
    {
        let king_index = self.own_king();
        let r = self.is_attacked_ignore_king(king_index);
        proof {
            let x = self.spec_active();
            let y = x.spec_opposite();
            let k = king_index as int;
            let place = self.placement();
            let ign = self.ignoring_king();
            let o = occupancy(place);
            let o2 = occupancy(ign);
            self.lemma_kings();
            assert forall|sq: int| #[trigger] o2.contains(sq) == (o.contains(sq) && sq != k) by {}
            assert(attacked(place, k, y) == attacked(ign, k, y)) by {
                if attacked(place, k, y) {
                    let s = choose|s: int|
                        #![trigger place(s)]
                        is_square(s) && (place(s) matches Some((p, c)) && c == y && attacks_square(p, c, s, k, o));
                    assert(ign(s) == place(s));
                    lemma_attack_mono(self.at(s).unwrap().0, y, s, k, o, o2);
                }
                if attacked(ign, k, y) {
                    let s = choose|s: int|
                        #![trigger ign(s)]
                        is_square(s) && (ign(s) matches Some((p, c)) && c == y && attacks_square(p, c, s, k, o2));
                    assert(ign(s) == place(s));
                    assert forall|d: Direction, u: int|
                        #![trigger on_ray(d, s, u), o.contains(u)]
                        on_ray(d, s, k) && on_ray(d, s, u) && crate::attacks::before(d, u, k) && o.contains(u)
                            implies o2.contains(u) by {}
                    lemma_attack_mono(self.at(s).unwrap().0, y, s, k, o2, o);
                }
            }
            if in_check(place, x) {
                let kk = choose|kk: int|
                    #![trigger place(kk)]
                    is_square(kk) && place(kk) == Some((PieceType::King, x)) && attacked(place, kk, y);
                assert(kk == k);
            }
            assert(place(k) == Some((PieceType::King, x)));
        }
        r
    }
}


impl Board {
    /// Whether a piece of color `by` attacks `square`.
    fn attacked_by(&self, square: usize, by: Color) -> (r: bool)
        requires
            self.placement_ok(),
            square < 64,
        ensures
            r == attacked(self.placement(), square as int, by),
    {
        let defender = by.opposite();
        let pawns = self.pawns(by);
        let knights = self.knights(by);
        let kings = self.kings(by);
        let diagonal_attackers = self.bishops(by).or(self.queens(by));
        let straight_attackers = self.rooks(by).or(self.queens(by));
        let occupancy_bb = self.all_pieces();
        let pawn_hits = pawn_attacks(defender.index(), square).and(pawns);
        let knight_hits = knight_attacks(square).and(knights);
        let king_hits = king_attacks(square).and(kings);
        let diagonal_hits = bishop_attacks(square, occupancy_bb).and(diagonal_attackers);
        let straight_hits = rook_attacks(square, occupancy_bb).and(straight_attackers);
        let r = !pawn_hits.is_empty() || !knight_hits.is_empty() || !king_hits.is_empty()
            || !diagonal_hits.is_empty() || !straight_hits.is_empty();
        proof {
            let place = self.placement();
            let occ = occupancy(place);
            let t = square as int;
            self.lemma_colors();
            assert forall|u: int| is_square(u) implies #[trigger] occ.contains(u) == bit(occupancy_bb.0, u as u64) by {}
            assert forall|s: int|
                is_square(s) implies (#[trigger] place(s) matches Some((p, c)) && c == by && attacks_square(
                    p,
                    c,
                    s,
                    t,
                    occ,
                )) == (pawn_hits.has(s) || knight_hits.has(s) || king_hits.has(s) || diagonal_hits.has(s)
                    || straight_hits.has(s)) by {
                self.lemma_spec_pieces(PieceType::Pawn, by, s);
                self.lemma_spec_pieces(PieceType::Knight, by, s);
                self.lemma_spec_pieces(PieceType::Bishop, by, s);
                self.lemma_spec_pieces(PieceType::Rook, by, s);
                self.lemma_spec_pieces(PieceType::Queen, by, s);
                self.lemma_spec_pieces(PieceType::King, by, s);
                lemma_pawn_attack_reverse(defender, t, s);
                lemma_step_reverse(t, s);
                lemma_reach_reverse(t, s, occupancy_bb.0, occ);
            }
            if r {
                if pawn_hits.0 != 0 {
                    lemma_nonzero(pawn_hits);
                    let s = choose|s: int| pawn_hits.has(s);
                    assert(place(s) matches Some((p, c)) && c == by && attacks_square(p, c, s, t, occ));
                } else if knight_hits.0 != 0 {
                    lemma_nonzero(knight_hits);
                    let s = choose|s: int| knight_hits.has(s);
                    assert(place(s) matches Some((p, c)) && c == by && attacks_square(p, c, s, t, occ));
                } else if king_hits.0 != 0 {
                    lemma_nonzero(king_hits);
                    let s = choose|s: int| king_hits.has(s);
                    assert(place(s) matches Some((p, c)) && c == by && attacks_square(p, c, s, t, occ));
                } else if diagonal_hits.0 != 0 {
                    lemma_nonzero(diagonal_hits);
                    let s = choose|s: int| diagonal_hits.has(s);
                    assert(place(s) matches Some((p, c)) && c == by && attacks_square(p, c, s, t, occ));
                } else {
                    lemma_nonzero(straight_hits);
                    let s = choose|s: int| straight_hits.has(s);
                    assert(place(s) matches Some((p, c)) && c == by && attacks_square(p, c, s, t, occ));
                }
            } else {
                lemma_nonzero(pawn_hits);
                lemma_nonzero(knight_hits);
                lemma_nonzero(king_hits);
                lemma_nonzero(diagonal_hits);
                lemma_nonzero(straight_hits);
            }
        }
        r
    }

    /// Whether a valid board holds a position that play can reach, as far as
    /// move generation relies on it: one king of each color, the side not to
    /// move not in check, and at most one knight and one pawn checking the
    /// king of the side to move.
    pub fn is_legal_position(&self) -> (r: bool)
        requires
            self.valid(),
        ensures
            r == self.legal_position(),
    {
        let x = self.active_color();
        let y = x.opposite();
        let white_kings = self.kings(Color::White);
        let black_kings = self.kings(Color::Black);
        proof {
            lemma_popcount_one_king(*self, Color::White);
            lemma_popcount_one_king(*self, Color::Black);
        }
        if white_kings.count() != 1 || black_kings.count() != 1 {
            return false;
        }
        let own_king = self.own_king();
        let other_king = self.kings(y).lsb_index().unwrap();
        proof {
            self.lemma_kings();
            self.lemma_spec_pieces(PieceType::King, y, other_king as int);
            assert(other_king as int == self.king_sq(y));
        }
        if self.attacked_by(other_king, x) {
            proof {
                let place = self.placement();
                assert(place(other_king as int) == Some((PieceType::King, y)));
                assert(in_check(place, y));
            }
            return false;
        }
        let knight_checkers = knight_attacks(own_king).and(self.knights(y));
        let pawn_checkers = pawn_attacks(x.index(), own_king).and(self.pawns(y));
        let ghost k = own_king as int;
        proof {
            assert(k == self.king_sq(x));
        }
        proof {
            let place = self.placement();
            if in_check(place, y) {
                let kk = choose|kk: int|
                    #![trigger place(kk)]
                    is_square(kk) && place(kk) == Some((PieceType::King, y)) && attacked(place, kk, x);
                assert(kk == self.king_sq(y));
            }
            assert forall|t: int| #[trigger] knight_checkers.has(t) == self.knight_checker(k, t) by {
                self.lemma_spec_pieces(PieceType::Knight, y, t);
            }
            assert forall|t: int| #[trigger] pawn_checkers.has(t) == self.pawn_checker(k, t) by {
                self.lemma_spec_pieces(PieceType::Pawn, y, t);
            }
            if !in_check(place, y) {
                self.lemma_apart_of_no_check();
            }
            lemma_popcount_at_most_one(knight_checkers);
            lemma_popcount_at_most_one(pawn_checkers);
            assert((popcount(knight_checkers.0) <= 1) == forall|a: int, b: int|
                #![trigger self.knight_checker(k, a), self.knight_checker(k, b)]
                self.knight_checker(k, a) && self.knight_checker(k, b) ==> a == b) by {
                if popcount(knight_checkers.0) <= 1 {
                    assert forall|a: int, b: int|
                        #![trigger self.knight_checker(k, a), self.knight_checker(k, b)]
                        self.knight_checker(k, a) && self.knight_checker(k, b) implies a == b by {
                        assert(knight_checkers.has(a) && knight_checkers.has(b));
                    }
                } else {
                    assert(!forall|a: int, b: int|
                        #![trigger knight_checkers.has(a), knight_checkers.has(b)]
                        knight_checkers.has(a) && knight_checkers.has(b) ==> a == b);
                    let (a, b) = choose|a: int, b: int| knight_checkers.has(a) && knight_checkers.has(b) && a != b;
                    assert(self.knight_checker(k, a) && self.knight_checker(k, b));
                }
            }
            assert((popcount(pawn_checkers.0) <= 1) == forall|a: int, b: int|
                #![trigger self.pawn_checker(k, a), self.pawn_checker(k, b)]
                self.pawn_checker(k, a) && self.pawn_checker(k, b) ==> a == b) by {
                if popcount(pawn_checkers.0) <= 1 {
                    assert forall|a: int, b: int|
                        #![trigger self.pawn_checker(k, a), self.pawn_checker(k, b)]
                        self.pawn_checker(k, a) && self.pawn_checker(k, b) implies a == b by {
                        assert(pawn_checkers.has(a) && pawn_checkers.has(b));
                    }
                } else {
                    assert(!forall|a: int, b: int|
                        #![trigger pawn_checkers.has(a), pawn_checkers.has(b)]
                        pawn_checkers.has(a) && pawn_checkers.has(b) ==> a == b);
                    let (a, b) = choose|a: int, b: int| pawn_checkers.has(a) && pawn_checkers.has(b) && a != b;
                    assert(self.pawn_checker(k, a) && self.pawn_checker(k, b));
                }
            }
        }
        knight_checkers.count() <= 1 && pawn_checkers.count() <= 1
    }
}

/// A word has at most one set bit exactly when its population count is at
/// most one.
proof fn lemma_popcount_at_most_one(b: Bitboard)
    ensures
        (popcount(b.0) <= 1) == forall|x: int, y: int|
            #![trigger b.has(x), b.has(y)]
            b.has(x) && b.has(y) ==> x == y,
{
    assert forall|x: int, y: int| #![trigger b.has(x), b.has(y)] popcount(b.0) <= 1 && b.has(x) && b.has(y) implies x == y by {
        crate::bitboard::lemma_popcount_zero(b.0);
        if popcount(b.0) == 1 {
            crate::bitboard::lemma_popcount_one(b.0, x as u64, y as u64);
        } else {
            crate::bitboard::lemma_bit_ops(0, 0, x as u64);
        }
    }
    if popcount(b.0) > 1 {
        let (x, y) = crate::bitboard::lemma_two_bits(b.0);
        assert(b.has(x as int) && b.has(y as int));
    }
}

/// Exactly one king of a color is exactly one bit in its bitboard.
proof fn lemma_popcount_one_king(b: Board, c: Color)
    requires
        b.placement_ok(),
    ensures
        (popcount(b.spec_pieces(PieceType::King, c).0) == 1) == b.one_king(c),
{
    let w = b.spec_pieces(PieceType::King, c);
    assert forall|t: int| #[trigger] w.has(t) == (is_square(t) && b.at(t) == Some((PieceType::King, c))) by {
        b.lemma_spec_pieces(PieceType::King, c, t);
    }
    lemma_popcount_at_most_one(w);
    crate::bitboard::lemma_popcount_zero(w.0);
    lemma_nonzero(w);
    if popcount(w.0) == 1 {
        let t = choose|t: int| w.has(t);
        assert(b.at(t) == Some((PieceType::King, c)));
        assert forall|x: int, y: int|
            #![trigger b.at(x), b.at(y)]
            is_square(x) && is_square(y) && b.at(x) == Some((PieceType::King, c)) && b.at(y) == Some(
                (PieceType::King, c),
            ) implies x == y by {
            assert(w.has(x) && w.has(y));
        }
        assert(b.one_king(c));
    }
    if b.one_king(c) {
        let k = choose|k: int| is_square(k) && #[trigger] b.at(k) == Some((PieceType::King, c));
        assert(w.has(k));
        assert(popcount(w.0) <= 1) by {
            assert forall|x: int, y: int| #![trigger w.has(x), w.has(y)] w.has(x) && w.has(y) implies x == y by {
                assert(b.at(x) == Some((PieceType::King, c)));
                assert(b.at(y) == Some((PieceType::King, c)));
            }
        }
    }
}

} // verus!
