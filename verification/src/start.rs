use vstd::prelude::*;
use crate::attacks::{king_step, pawn_double};
use crate::bitboard::{file_of, is_square, rank_of};
use crate::board::{list_at, list_count, list_valid, new_error, Board, BoardMetadata};
use crate::pieces::{CastlingRights, Color, Move, MoveType, PieceType};
use crate::rules::{attacked, attacks_square, in_check};

verus! {

/// The piece that starts on file `f` of a back rank.
pub open spec fn back_piece(f: int) -> PieceType {
    if f == 0 || f == 7 {
        PieceType::Rook
    } else if f == 1 || f == 6 {
        PieceType::Knight
    } else if f == 2 || f == 5 {
        PieceType::Bishop
    } else if f == 3 {
        PieceType::Queen
    } else {
        PieceType::King
    }
}

/// The piece on a square in the standard starting position.
pub open spec fn start_piece(sq: int) -> Option<(PieceType, Color)> {
    if 0 <= sq < 8 {
        Some((back_piece(sq), Color::White))
    } else if 8 <= sq < 16 {
        Some((PieceType::Pawn, Color::White))
    } else if 48 <= sq < 56 {
        Some((PieceType::Pawn, Color::Black))
    } else if 56 <= sq < 64 {
        Some((back_piece(sq - 56), Color::Black))
    } else {
        None
    }
}

/// The piece that starts on file `f` of a back rank.
fn back_piece_of(f: usize) -> (r: PieceType)
    requires
        f < 8,
    ensures
        r == back_piece(f as int),
{
    if f == 0 || f == 7 {
        PieceType::Rook
    } else if f == 1 || f == 6 {
        PieceType::Knight
    } else if f == 2 || f == 5 {
        PieceType::Bishop
    } else if f == 3 {
        PieceType::Queen
    } else {
        PieceType::King
    }
}

/// Whether square `sq` has been listed after `f` files of each of the four
/// starting ranks.
pub open spec fn listed(sq: int, f: int) -> bool {
    (0 <= sq < 16 || 48 <= sq < 64) && sq % 8 < f
}

/// A placement list with one more entry.
proof fn lemma_list_push(ps: Seq<(usize, PieceType, Color)>, x: (usize, PieceType, Color))
    ensures
        forall|sq: int| #[trigger] list_at(ps.push(x), sq) == if x.0 == sq {
            Some((x.1, x.2))
        } else {
            list_at(ps, sq)
        },
        forall|pt: PieceType, c: Color| #[trigger] list_count(ps.push(x), pt, c) == list_count(ps, pt, c) + if x.1 == pt
            && x.2 == c {
            1nat
        } else {
            0nat
        },
{
    assert(ps.push(x).drop_last() =~= ps);
}

/// The pieces of the standard starting position, with their squares.
fn start_pieces() -> (r: Vec<(usize, PieceType, Color)>)
    ensures
        list_valid(r@),
        forall|sq: int| #[trigger] list_at(r@, sq) == start_piece(sq),
        list_count(r@, PieceType::King, Color::White) == 1,
        list_count(r@, PieceType::King, Color::Black) == 1,
{
    let mut r: Vec<(usize, PieceType, Color)> = Vec::new();
    let mut f: usize = 0;
    while f < 8
        invariant
            f <= 8,
            r.len() == 4 * f,
            forall|i: int| 0 <= i < r.len() ==> listed(#[trigger] r@[i].0 as int, f as int),
            forall|i: int, j: int| 0 <= i < j < r.len() ==> (#[trigger] r@[i]).0 != (#[trigger] r@[j]).0,
            forall|sq: int| #[trigger] list_at(r@, sq) == if listed(sq, f as int) {
                start_piece(sq)
            } else {
                None
            },
            list_count(r@, PieceType::King, Color::White) == if f > 4 {
                1nat
            } else {
                0nat
            },
            list_count(r@, PieceType::King, Color::Black) == if f > 4 {
                1nat
            } else {
                0nat
            },
        decreases 8 - f,
    {
        let p = back_piece_of(f);
        let entries = [(f, p, Color::White), (8 + f, PieceType::Pawn, Color::White), (48 + f, PieceType::Pawn,
            Color::Black), (56 + f, p, Color::Black)];
        let mut j: usize = 0;
        let ghost start = r@;
        while j < 4
            invariant
                f < 8,
                j <= 4,
                start.len() == 4 * f,
                r.len() == 4 * f + j,
                r@.subrange(0, start.len() as int) == start,
                p == back_piece(f as int),
                entries@ == seq![(f, p, Color::White), ((8 + f) as usize, PieceType::Pawn, Color::White), ((48 + f) as usize, PieceType::Pawn,
                    Color::Black), ((56 + f) as usize, p, Color::Black)],
                forall|i: int| 0 <= i < j ==> r@[4 * f + i] == entries@[i],
                forall|i: int| 0 <= i < start.len() ==> listed(#[trigger] start[i].0 as int, f as int),
                forall|i: int, k: int| 0 <= i < k < start.len() ==> (#[trigger] start[i]).0 != (#[trigger] start[k]).0,
                forall|sq: int| #[trigger] list_at(start, sq) == if listed(sq, f as int) {
                    start_piece(sq)
                } else {
                    None
                },
            decreases 4 - j,
        {
            r.push(entries[j]);
            j += 1;
            proof {
                assert(r@.subrange(0, start.len() as int) =~= start);
            }
        }
        proof {
            let e = entries@;
            assert(r@ =~= start.push(e[0]).push(e[1]).push(e[2]).push(e[3]));
            lemma_list_push(start, e[0]);
            lemma_list_push(start.push(e[0]), e[1]);
            lemma_list_push(start.push(e[0]).push(e[1]), e[2]);
            lemma_list_push(start.push(e[0]).push(e[1]).push(e[2]), e[3]);
            assert forall|i: int| 0 <= i < r.len() implies listed(#[trigger] r@[i].0 as int, f + 1) by {
                if i < start.len() {
                    assert(r@[i] == start[i]);
                }
            }
            assert forall|i: int, k: int| 0 <= i < k < r.len() implies (#[trigger] r@[i]).0 != (#[trigger] r@[k]).0 by {
                if k < start.len() {
                    assert(r@[i] == start[i]);
                    assert(r@[k] == start[k]);
                } else if i < start.len() {
                    assert(r@[i] == start[i]);
                    assert(listed(start[i].0 as int, f as int));
                }
            }
            assert forall|sq: int| #[trigger] list_at(r@, sq) == if listed(sq, f + 1) {
                start_piece(sq)
            } else {
                None
            } by {
                assert(listed(sq, f + 1) == (listed(sq, f as int) || sq == f || sq == 8 + f || sq == 48 + f || sq == 56 + f));
            }
        }
        f += 1;
    }
    proof {
        assert forall|sq: int| #[trigger] list_at(r@, sq) == start_piece(sq) by {
            assert(listed(sq, 8) == (0 <= sq < 16 || 48 <= sq < 64));
        }
        assert forall|i: int| 0 <= i < r.len() implies (#[trigger] r@[i]).0 < 64 by {
            assert(listed(r@[i].0 as int, 8));
        }
    }
    r
}

/// A board with the pieces of the starting position, white to move, can be
/// reached in play.
proof fn lemma_start_legal(b: Board)
    requires
        b.valid(),
        forall|sq: int| is_square(sq) ==> #[trigger] b.at(sq) == start_piece(sq),
        b.spec_active() == Color::White,
    ensures
        b.legal_position(),
{
    assert(b.at(4) == start_piece(4));
    assert(b.at(60) == start_piece(60));
    assert(b.one_king(Color::White)) by {
        assert forall|a: int, c: int|
            #![trigger b.at(a), b.at(c)]
            is_square(a) && is_square(c) && b.at(a) == Some((PieceType::King, Color::White)) && b.at(c) == Some(
                (PieceType::King, Color::White),
            ) implies a == c by {
            assert(b.at(a) == start_piece(a));
            assert(b.at(c) == start_piece(c));
        }
    }
    assert(b.one_king(Color::Black)) by {
        assert forall|a: int, c: int|
            #![trigger b.at(a), b.at(c)]
            is_square(a) && is_square(c) && b.at(a) == Some((PieceType::King, Color::Black)) && b.at(c) == Some(
                (PieceType::King, Color::Black),
            ) implies a == c by {
            assert(b.at(a) == start_piece(a));
            assert(b.at(c) == start_piece(c));
        }
    }
    b.lemma_king_sq(Color::White);
    b.lemma_king_sq(Color::Black);
    assert(b.king_sq(Color::White) == 4);
    assert(b.king_sq(Color::Black) == 60);
    assert(!king_step(4, 60));
    assert forall|a: int| !#[trigger] b.knight_checker(4, a) by {
        if is_square(a) {
            assert(b.at(a) == start_piece(a));
        }
    }
    assert forall|a: int| !#[trigger] b.pawn_checker(4, a) by {
        if is_square(a) {
            assert(b.at(a) == start_piece(a));
        }
    }
    let place = b.placement();
    assert(!in_check(place, Color::Black)) by {
        if in_check(place, Color::Black) {
            let k = choose|k: int|
                #![trigger place(k)]
                is_square(k) && place(k) == Some((PieceType::King, Color::Black)) && attacked(place, k, Color::White);
            assert(b.at(k) == start_piece(k));
            assert(k == 60);
            let s = choose|s: int|
                #![trigger place(s)]
                is_square(s) && (place(s) matches Some((p, c)) && c == Color::White && attacks_square(
                    p,
                    c,
                    s,
                    60,
                    crate::rules::occupancy(place),
                ));
            assert(b.at(s) == start_piece(s));
            assert(0 <= s < 16);
        }
    }
}

/// A board in the standard starting position, ready to play.
pub fn start_board() -> (b: Board)
    ensures
        b.legal_position(),
        forall|sq: int| is_square(sq) ==> #[trigger] b.at(sq) == start_piece(sq),
        b.spec_active() == Color::White,
        b.spec_halfmove() == 0,
        b.history().len() == 0,
        b.metas().len() == 1,
        forall|k: bool, c: Color| #[trigger] b.meta().castling_rights.spec_has(k, c),
        b.meta().en_passant_square is None,
        b.meta().rule50 == 0,
        b.is_legal(Move { from: 12, to: 28, move_type: MoveType::Regular }),
        !b.insufficient_material(),
        b.repetitions() < 3,
{
    let pieces = start_pieces();
    let mut rights = CastlingRights::empty();
    rights.set_kingside(Color::White, true);
    rights.set_queenside(Color::White, true);
    rights.set_kingside(Color::Black, true);
    rights.set_queenside(Color::Black, true);
    proof {
        assert forall|k: bool, c: Color| #[trigger] rights.spec_has(k, c) by {
            match c {
                Color::White => {},
                Color::Black => {},
            }
        }
        assert(list_at(pieces@, 4) == start_piece(4));
        assert(list_at(pieces@, 60) == start_piece(60));
        assert(list_at(pieces@, 0) == start_piece(0));
        assert(list_at(pieces@, 7) == start_piece(7));
        assert(list_at(pieces@, 56) == start_piece(56));
        assert(list_at(pieces@, 63) == start_piece(63));
        assert(new_error(pieces@, rights, None, 0, 0) is None);
    }
    match Board::new(pieces.as_slice(), rights, None, 0, 0) {
        Ok(b) => {
            proof {
                b.lemma_meta_last();
                lemma_start_legal(b);
                lemma_start_move(b);
                lemma_start_counts(b);
            }
            b
        },
        Err(_) => {
            proof {
                assert(false);
            }
            vstd::pervasive::unreached()
        },
    }
}

/// The opening move e2-e4 is legal from the starting position.
proof fn lemma_start_move(b: Board)
    requires
        b.valid(),
        forall|sq: int| is_square(sq) ==> #[trigger] b.at(sq) == start_piece(sq),
        b.spec_active() == Color::White,
    ensures
        b.is_legal(Move { from: 12, to: 28, move_type: MoveType::Regular }),
{
    let mv = Move { from: 12, to: 28, move_type: MoveType::Regular };
    assert(b.at(12) == start_piece(12));
    assert(b.at(20) == start_piece(20));
    assert(b.at(28) == start_piece(28));
    assert(pawn_double(0, 12, 28));
    assert(b.follows_rules(mv));
    let place = b.after(mv);
    assert forall|sq: int| is_square(sq) implies #[trigger] place(sq) == if sq == 28 {
        Some((PieceType::Pawn, Color::White))
    } else if sq == 12 {
        None
    } else {
        start_piece(sq)
    } by {
        assert(b.at(sq) == start_piece(sq));
    }
    assert(!in_check(place, Color::White)) by {
        if in_check(place, Color::White) {
            let k = choose|k: int|
                #![trigger place(k)]
                is_square(k) && place(k) == Some((PieceType::King, Color::White)) && attacked(place, k, Color::Black);
            assert(k == 4);
            let s = choose|s: int|
                #![trigger place(s)]
                is_square(s) && (place(s) matches Some((p, c)) && c == Color::Black && attacks_square(
                    p,
                    c,
                    s,
                    4,
                    crate::rules::occupancy(place),
                ));
            assert(48 <= s < 64);
        }
    }
}

/// The starting position has pawns on the board and has not occurred
/// before.
proof fn lemma_start_counts(b: Board)
    requires
        b.valid(),
        forall|sq: int| is_square(sq) ==> #[trigger] b.at(sq) == start_piece(sq),
        b.metas().len() == 1,
    ensures
        !b.insufficient_material(),
        b.repetitions() < 3,
{
    assert(b.at(8) == start_piece(8));
    let n = b.metas().len();
    let h = if b.meta().rule50 + 1 < n { b.meta().rule50 + 1 } else { n as int };
    assert(h == 1);
    let m = b.metas().subrange(0, 1);
    assert(m.drop_last() =~= Seq::<BoardMetadata>::empty());
    assert(crate::board::count_hash(m, b.meta().zobrist) <= 1) by {
        reveal_with_fuel(crate::board::count_hash, 2);
    }
}

} // verus!
