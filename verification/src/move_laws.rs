use vstd::prelude::*;
use crate::board::{clear_right, revoke_rights, Board};
use crate::pieces::{CastlingRights, Color, Move, MoveType, PieceType};
use crate::zobrist::spec_castling_key;

verus! {

/// The key of one castling right when it is held, zero otherwise.
pub open spec fn right_key(r: CastlingRights, kingside: bool, color: Color) -> u64 {
    if r.spec_has(kingside, color) {
        spec_castling_key(kingside, color)
    } else {
        0
    }
}

/// The hash keys of the castling rights held, combined.
pub open spec fn castling_key(r: CastlingRights) -> u64 {
    right_key(r, true, Color::White) ^ right_key(r, false, Color::White) ^ right_key(r, true, Color::Black)
        ^ right_key(r, false, Color::Black)
}

/// Changing the first of four combined words by `k`.
proof fn lemma_xor_first(a: u64, b: u64, c: u64, d: u64, k: u64)
    by (bit_vector)
    ensures
        (a ^ k) ^ b ^ c ^ d == (a ^ b ^ c ^ d) ^ k,
        a ^ (b ^ k) ^ c ^ d == (a ^ b ^ c ^ d) ^ k,
        a ^ b ^ (c ^ k) ^ d == (a ^ b ^ c ^ d) ^ k,
        a ^ b ^ c ^ (d ^ k) == (a ^ b ^ c ^ d) ^ k,
{
}

/// Toggling a key into the hash and into the combined rights keys leaves
/// their combination unchanged.
proof fn lemma_xor_cancel(z: u64, h: u64, k: u64)
    by (bit_vector)
    ensures
        (z ^ k) ^ (h ^ k) == z ^ h,
{
}

/// Clearing a castling right toggles its key in the hash exactly when the
/// right was held: the hash combined with the keys of the rights held does
/// not change.
pub proof fn lemma_clear_right_keys(state: (CastlingRights, u64), kingside: bool, color: Color)
    ensures
        !clear_right(state, kingside, color).0.spec_has(kingside, color),
        forall|k: bool, c: Color|
            !(k == kingside && c == color) ==> #[trigger] clear_right(state, kingside, color).0.spec_has(k, c)
                == state.0.spec_has(k, c),
        clear_right(state, kingside, color).1 ^ castling_key(clear_right(state, kingside, color).0) == state.1
            ^ castling_key(state.0),
{
    let r = state.0;
    r.lemma_spec_set(kingside, color, false);
    let r2 = clear_right(state, kingside, color).0;
    if r.spec_has(kingside, color) {
        let key = spec_castling_key(kingside, color);
        let a = right_key(r, true, Color::White);
        let b = right_key(r, false, Color::White);
        let c = right_key(r, true, Color::Black);
        let d = right_key(r, false, Color::Black);
        lemma_xor_first(a, b, c, d, key);
        assert(castling_key(r2) == castling_key(r) ^ key) by {
            match color {
                Color::White => {
                    if kingside {
                        assert(right_key(r2, true, Color::White) == 0);
                        assert(a == 0 ^ key) by (bit_vector)
                            requires
                                a == key,
                        ;
                        assert(castling_key(r2) == (a ^ key) ^ b ^ c ^ d) by {
                            assert(a ^ key == 0u64) by (bit_vector)
                                requires
                                    a == key,
                            ;
                        }
                    } else {
                        assert(castling_key(r2) == a ^ (b ^ key) ^ c ^ d) by {
                            assert(b ^ key == 0u64) by (bit_vector)
                                requires
                                    b == key,
                            ;
                        }
                    }
                },
                Color::Black => {
                    if kingside {
                        assert(castling_key(r2) == a ^ b ^ (c ^ key) ^ d) by {
                            assert(c ^ key == 0u64) by (bit_vector)
                                requires
                                    c == key,
                            ;
                        }
                    } else {
                        assert(castling_key(r2) == a ^ b ^ c ^ (d ^ key)) by {
                            assert(d ^ key == 0u64) by (bit_vector)
                                requires
                                    d == key,
                            ;
                        }
                    }
                },
            }
        }
        lemma_xor_cancel(state.1, castling_key(r), key);
    }
}

/// Revoking the castling rights that a piece leaving or captured on a
/// square takes away clears the right of a rook on its home square and both
/// rights of a king on its home square, keeps every other right, and keeps
/// the hash combined with the keys of the rights held: each right lost
/// toggles its own key.
pub proof fn lemma_revoke_rights_keys(state: (CastlingRights, u64), piece_type: PieceType, square: int)
    ensures
        ({
            let after = revoke_rights(state, piece_type, square);
            &&& after.1 ^ castling_key(after.0) == state.1 ^ castling_key(state.0)
            &&& forall|k: bool, c: Color|
                #[trigger] after.0.spec_has(k, c) == (state.0.spec_has(k, c) && !crate::board::revokes(
                    piece_type,
                    square,
                    k,
                    c,
                ))
        }),
{
    let s1 = clear_right(state, true, Color::White);
    let s2 = clear_right(state, true, Color::Black);
    lemma_clear_right_keys(state, true, Color::White);
    lemma_clear_right_keys(state, false, Color::White);
    lemma_clear_right_keys(state, true, Color::Black);
    lemma_clear_right_keys(state, false, Color::Black);
    lemma_clear_right_keys(s1, false, Color::White);
    lemma_clear_right_keys(s2, false, Color::Black);
    let after = revoke_rights(state, piece_type, square);
    assert forall|k: bool, c: Color|
        #[trigger] after.0.spec_has(k, c) == (state.0.spec_has(k, c) && !crate::board::revokes(
            piece_type,
            square,
            k,
            c,
        )) by {
        match c {
            Color::White => {},
            Color::Black => {},
        }
    }
}

/// After a move, the fifty-move counter is zero when the move captured a
/// piece or moved a pawn, and one more than before otherwise.
pub proof fn lemma_rule50_after_move(b: Board, mv: Move, b1: Board)
    requires
        b.wf(),
        b.applicable(mv),
        Board::made(b, mv, b1),
    ensures
        b1.meta().rule50 == if b.spec_captured(mv) is Some || b.type_at(mv.from as int) == Some(PieceType::Pawn) {
            0
        } else {
            b.meta().rule50 + 1
        },
{
    reveal(Board::spec_make_meta);
    b.lemma_meta_last();
    b1.lemma_meta_last();
    assert(b1.meta() == b.spec_make_meta(mv));
    assert(b.metas()[b.metas().len() - 1].rule50 + 0 <= b.spec_halfmove());
    assert(b1.spec_halfmove() == b.spec_halfmove() + 1);
}

/// The castling rights after a move: a king or rook leaving its home square,
/// or a rook captured on its home square, takes away the rights that depend
/// on it; castling takes away both rights of the side that castles; every
/// other right stays as it was.
pub proof fn lemma_rights_after_move(b: Board, mv: Move, b1: Board)
    requires
        b.wf(),
        b.applicable(mv),
        Board::made(b, mv, b1),
    ensures
        forall|k: bool, c: Color|
            #[trigger] b1.meta().castling_rights.spec_has(k, c) == (b.meta().castling_rights.spec_has(k, c) && match mv.move_type {
                MoveType::Regular => !crate::board::revokes(b.type_at(mv.from as int).unwrap(), mv.from as int, k, c)
                    && !(b.type_at(mv.to as int) matches Some(cp) && crate::board::revokes(cp, mv.to as int, k, c)),
                MoveType::Promotion(_) => !(b.type_at(mv.to as int) matches Some(cp) && crate::board::revokes(
                    cp,
                    mv.to as int,
                    k,
                    c,
                )),
                MoveType::EnPassant(_) => true,
                MoveType::Castling(_) => c != b.spec_active(),
            }),
{
    reveal(Board::spec_make_meta);
    b.lemma_meta_last();
    b1.lemma_meta_last();
    assert(b1.meta() == b.spec_make_meta(mv));
    let m = b.meta();
    let from = mv.from as int;
    let to = mv.to as int;
    let z1 = m.zobrist ^ crate::zobrist::spec_color();
    let x = b.spec_active();
    let opp = x.spec_opposite();
    match mv.move_type {
        MoveType::Regular => {
            let moving = b.type_at(from).unwrap();
            lemma_revoke_rights_keys((m.castling_rights, z1), moving, from);
            let (r2, z2) = revoke_rights((m.castling_rights, z1), moving, from);
            let double = moving == PieceType::Pawn && (from - to == 16 || to - from == 16);
            let z3 = if double {
                z2 ^ crate::zobrist::spec_en_passant((from + to) / 2)
            } else {
                z2
            };
            if let Some(cp) = b.type_at(to) {
                lemma_revoke_rights_keys((r2, z3 ^ crate::zobrist::spec_piece_square(cp, opp, to)), cp, to);
            }
        },
        MoveType::Promotion(_) => {
            if let Some(cp) = b.type_at(to) {
                lemma_revoke_rights_keys(
                    (m.castling_rights, z1 ^ crate::zobrist::spec_piece_square(cp, opp, to)),
                    cp,
                    to,
                );
            }
        },
        MoveType::EnPassant(_) => {},
        MoveType::Castling(_) => {
            lemma_clear_right_keys((m.castling_rights, z1), true, x);
            lemma_clear_right_keys(clear_right((m.castling_rights, z1), true, x), false, x);
        },
    }
}

/// Toggling the same key into two hashes keeps them equal once combined
/// with their rights keys.
proof fn lemma_xor_shift(z: u64, h: u64, w: u64, g: u64, k: u64)
    by (bit_vector)
    requires
        z ^ h == w ^ g,
    ensures
        (z ^ k) ^ h == (w ^ k) ^ g,
{
}

/// The hash of a position moves with its castling rights: two boards with
/// the same pieces, side to move and en passant square whose hashes differ
/// by the keys of the rights each holds lead, by the same move, to boards
/// whose hashes again differ by the keys of the rights each holds. A right
/// lost changes the hash by its own key.
pub proof fn lemma_hash_follows_rights(b: Board, c: Board, mv: Move, b1: Board, c1: Board)
    requires
        b.wf(),
        c.wf(),
        forall|sq: int| #[trigger] b.at(sq) == c.at(sq),
        b.spec_active() == c.spec_active(),
        b.meta().en_passant_square == c.meta().en_passant_square,
        b.meta().zobrist ^ castling_key(b.meta().castling_rights) == c.meta().zobrist ^ castling_key(
            c.meta().castling_rights,
        ),
        Board::made(b, mv, b1),
        Board::made(c, mv, c1),
    ensures
        b1.meta().zobrist ^ castling_key(b1.meta().castling_rights) == c1.meta().zobrist ^ castling_key(
            c1.meta().castling_rights,
        ),
{
    reveal(Board::spec_make_meta);
    b.lemma_meta_last();
    b1.lemma_meta_last();
    c.lemma_meta_last();
    c1.lemma_meta_last();
    assert(b1.meta() == b.spec_make_meta(mv));
    assert(c1.meta() == c.spec_make_meta(mv));
    let mb = b.meta();
    let mc = c.meta();
    let from = mv.from as int;
    let to = mv.to as int;
    let x = b.spec_active();
    let opp = x.spec_opposite();
    let col = crate::zobrist::spec_color();
    let zb1 = mb.zobrist ^ col;
    let zc1 = mc.zobrist ^ col;
    lemma_xor_shift(mb.zobrist, castling_key(mb.castling_rights), mc.zobrist, castling_key(mc.castling_rights), col);
    assert(b.type_at(from) == c.type_at(from));
    assert(b.type_at(to) == c.type_at(to));
    match mv.move_type {
        MoveType::Regular => {
            let moving = b.type_at(from).unwrap();
            lemma_revoke_rights_keys((mb.castling_rights, zb1), moving, from);
            lemma_revoke_rights_keys((mc.castling_rights, zc1), moving, from);
            let (rb2, zb2) = revoke_rights((mb.castling_rights, zb1), moving, from);
            let (rc2, zc2) = revoke_rights((mc.castling_rights, zc1), moving, from);
            let double = moving == PieceType::Pawn && (from - to == 16 || to - from == 16);
            let e = crate::zobrist::spec_en_passant((from + to) / 2);
            let zb3 = if double { zb2 ^ e } else { zb2 };
            let zc3 = if double { zc2 ^ e } else { zc2 };
            if double {
                lemma_xor_shift(zb2, castling_key(rb2), zc2, castling_key(rc2), e);
            }
            let (rb4, zb4, rc4, zc4) = match b.type_at(to) {
                Some(cp) => {
                    let kk = crate::zobrist::spec_piece_square(cp, opp, to);
                    lemma_xor_shift(zb3, castling_key(rb2), zc3, castling_key(rc2), kk);
                    lemma_revoke_rights_keys((rb2, zb3 ^ kk), cp, to);
                    lemma_revoke_rights_keys((rc2, zc3 ^ kk), cp, to);
                    let sb = revoke_rights((rb2, zb3 ^ kk), cp, to);
                    let sc = revoke_rights((rc2, zc3 ^ kk), cp, to);
                    (sb.0, sb.1, sc.0, sc.1)
                },
                None => (rb2, zb3, rc2, zc3),
            };
            let k1 = crate::zobrist::spec_piece_square(moving, x, from);
            let k2 = crate::zobrist::spec_piece_square(moving, x, to);
            lemma_xor_shift(zb4, castling_key(rb4), zc4, castling_key(rc4), k1);
            lemma_xor_shift(zb4 ^ k1, castling_key(rb4), zc4 ^ k1, castling_key(rc4), k2);
        },
        MoveType::Promotion(p) => {
            let (rb2, zb2, rc2, zc2) = match b.type_at(to) {
                Some(cp) => {
                    let kk = crate::zobrist::spec_piece_square(cp, opp, to);
                    lemma_xor_shift(zb1, castling_key(mb.castling_rights), zc1, castling_key(mc.castling_rights), kk);
                    lemma_revoke_rights_keys((mb.castling_rights, zb1 ^ kk), cp, to);
                    lemma_revoke_rights_keys((mc.castling_rights, zc1 ^ kk), cp, to);
                    let sb = revoke_rights((mb.castling_rights, zb1 ^ kk), cp, to);
                    let sc = revoke_rights((mc.castling_rights, zc1 ^ kk), cp, to);
                    (sb.0, sb.1, sc.0, sc.1)
                },
                None => (mb.castling_rights, zb1, mc.castling_rights, zc1),
            };
            let k1 = crate::zobrist::spec_piece_square(PieceType::Pawn, x, from);
            let k2 = crate::zobrist::spec_piece_square(p, x, to);
            lemma_xor_shift(zb2, castling_key(rb2), zc2, castling_key(rc2), k1);
            lemma_xor_shift(zb2 ^ k1, castling_key(rb2), zc2 ^ k1, castling_key(rc2), k2);
        },
        MoveType::EnPassant(t) => {
            let k0 = crate::zobrist::spec_piece_square(PieceType::Pawn, opp, t as int);
            let k1 = crate::zobrist::spec_piece_square(PieceType::Pawn, x, from);
            let k2 = crate::zobrist::spec_piece_square(PieceType::Pawn, x, to);
            let hb = castling_key(mb.castling_rights);
            let hc = castling_key(mc.castling_rights);
            lemma_xor_shift(zb1, hb, zc1, hc, k0);
            lemma_xor_shift(zb1 ^ k0, hb, zc1 ^ k0, hc, k1);
            lemma_xor_shift(zb1 ^ k0 ^ k1, hb, zc1 ^ k0 ^ k1, hc, k2);
        },
        MoveType::Castling(kingside) => {
            let (rook_from, rook_to) = crate::board::castling_rook_squares(from, kingside);
            lemma_clear_right_keys((mb.castling_rights, zb1), true, x);
            lemma_clear_right_keys((mc.castling_rights, zc1), true, x);
            let sb = clear_right((mb.castling_rights, zb1), true, x);
            let sc = clear_right((mc.castling_rights, zc1), true, x);
            lemma_clear_right_keys(sb, false, x);
            lemma_clear_right_keys(sc, false, x);
            let tb = clear_right(sb, false, x);
            let tc = clear_right(sc, false, x);
            let hb = castling_key(tb.0);
            let hc = castling_key(tc.0);
            let k0 = crate::zobrist::spec_piece_square(PieceType::Rook, x, rook_from);
            let k1 = crate::zobrist::spec_piece_square(PieceType::Rook, x, rook_to);
            let k2 = crate::zobrist::spec_piece_square(PieceType::King, x, from);
            let k3 = crate::zobrist::spec_piece_square(PieceType::King, x, to);
            lemma_xor_shift(tb.1, hb, tc.1, hc, k0);
            lemma_xor_shift(tb.1 ^ k0, hb, tc.1 ^ k0, hc, k1);
            lemma_xor_shift(tb.1 ^ k0 ^ k1, hb, tc.1 ^ k0 ^ k1, hc, k2);
            lemma_xor_shift(tb.1 ^ k0 ^ k1 ^ k2, hb, tc.1 ^ k0 ^ k1 ^ k2, hc, k3);
        },
    }
}

} // verus!
