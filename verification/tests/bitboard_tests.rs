use chess_again::attacks::{
    bishop_attacks, king_attacks, knight_attacks, north_ray, pawn_attacks, pawn_double_pushes,
    pawn_pushes, rook_attacks, southwest_ray,
};
use chess_again::utils::{parse_algebraic, square_to_algebraic};
use chess_again::zobrist;
use chess_again::zobrist::Zobrist;
use chess_again::{generate_bitboard_tables, Bitboard, CastlingRights, Color, Move, MoveType, PieceType};

#[test]
fn bitboard_from_square_and_contains() {
    let b = Bitboard::from_square(28);
    assert_eq!(b, Bitboard(1u64 << 28));
    assert!(b.contains(28));
    assert!(!b.contains(27));
    assert_eq!(b.count(), 1);
    assert!(!b.is_empty());
    assert!(Bitboard(0).is_empty());
}

#[test]
fn bitboard_lsb_and_msb() {
    let b = Bitboard((1u64 << 3) | (1u64 << 40) | (1u64 << 63));
    assert_eq!(b.lsb_index(), Some(3));
    assert_eq!(b.msb_index(), Some(63));
    assert_eq!(Bitboard(0).lsb_index(), None);
    assert_eq!(Bitboard(0).msb_index(), None);
    assert_eq!(b.count(), 3);
}

#[test]
fn bitboard_set_and_clear() {
    let mut b = Bitboard(0);
    b.set(5);
    b.set(60);
    assert_eq!(b, Bitboard((1u64 << 5) | (1u64 << 60)));
    b.clear(5);
    assert_eq!(b, Bitboard(1u64 << 60));
    b.clear(7);
    assert_eq!(b, Bitboard(1u64 << 60));
    assert_eq!(b.with_set(0), Bitboard((1u64 << 60) | 1));
    assert_eq!(b.with_clear(60), Bitboard(0));
    assert_eq!(b, Bitboard(1u64 << 60));
}

#[test]
fn bitboard_set_operations() {
    let a = Bitboard(0b1100);
    let b = Bitboard(0b1010);
    assert_eq!(a.and(b), Bitboard(0b1000));
    assert_eq!(a.or(b), Bitboard(0b1110));
    assert_eq!(a.without(b), Bitboard(0b0100));
    assert_eq!(a.toggle(b), Bitboard(0b0110));
    assert_eq!(a.complement(), Bitboard(!0b1100u64));
}

#[test]
fn bitboard_index_iteration_both_ends() {
    let b = Bitboard((1u64 << 1) | (1u64 << 9) | (1u64 << 62));
    let mut it = b.iter_indices();
    assert_eq!(it.size_hint(), (3, Some(3)));
    assert_eq!(it.next(), Some(1));
    assert_eq!(it.next_back(), Some(62));
    assert_eq!(it.next(), Some(9));
    assert_eq!(it.next(), None);
    assert_eq!(it.next_back(), None);
    assert_eq!(it.size_hint(), (0, Some(0)));
}

#[test]
fn bitboard_bit_iteration_both_ends() {
    let b = Bitboard((1u64 << 0) | (1u64 << 33) | (1u64 << 63));
    let mut it = b.iter_bits();
    assert_eq!(it.next(), Some(Bitboard(1)));
    assert_eq!(it.next_back(), Some(Bitboard(1u64 << 63)));
    assert_eq!(it.next(), Some(Bitboard(1u64 << 33)));
    assert_eq!(it.next(), None);
}

#[test]
fn castling_rights_flags() {
    let mut rights = CastlingRights::empty();
    assert!(rights.is_empty());
    rights.set_kingside(Color::White, true);
    rights.set_queenside(Color::Black, true);
    assert!(rights.kingside(Color::White));
    assert!(!rights.queenside(Color::White));
    assert!(!rights.kingside(Color::Black));
    assert!(rights.queenside(Color::Black));
    rights.set_kingside(Color::White, false);
    assert!(!rights.kingside(Color::White));
    assert!(!rights.is_empty());
    rights.set_queenside(Color::Black, false);
    assert_eq!(rights, CastlingRights::empty());
}

#[test]
fn colors_and_piece_indices() {
    assert_eq!(Color::White.opposite(), Color::Black);
    assert_eq!(Color::Black.opposite(), Color::White);
    assert_eq!(Color::White.index(), 0);
    assert_eq!(Color::Black.index(), 1);
    assert_eq!(PieceType::Pawn.index(), 0);
    assert_eq!(PieceType::King.index(), 5);
}

#[test]
fn algebraic_squares() {
    assert_eq!(parse_algebraic("a1"), Ok(0));
    assert_eq!(parse_algebraic("e4"), Ok(28));
    assert_eq!(parse_algebraic("h8"), Ok(63));
    assert_eq!(parse_algebraic("i1"), Err("Invalid square: 'i1'".to_string()));
    assert_eq!(parse_algebraic("e9"), Err("Invalid square: 'e9'".to_string()));
    assert_eq!(parse_algebraic("e44"), Err("Invalid square: 'e44'".to_string()));
    assert_eq!(parse_algebraic(""), Err("Invalid square: ''".to_string()));
    assert_eq!(square_to_algebraic(0), "a1");
    assert_eq!(square_to_algebraic(28), "e4");
    assert_eq!(square_to_algebraic(63), "h8");
    for square in 0..64usize {
        assert_eq!(parse_algebraic(&square_to_algebraic(square)), Ok(square));
    }
}

#[test]
fn move_coordinate_notation() {
    let mv = Move { from: 12, to: 28, move_type: MoveType::Regular };
    assert_eq!(mv.to_coordinate(), Some("e2e4".to_string()));
    let promo = Move { from: 52, to: 60, move_type: MoveType::Promotion(PieceType::Queen) };
    assert_eq!(promo.to_coordinate(), Some("e7e8q".to_string()));
    let under = Move { from: 52, to: 60, move_type: MoveType::Promotion(PieceType::Knight) };
    assert_eq!(under.to_coordinate(), Some("e7e8n".to_string()));
    let bad = Move { from: 52, to: 60, move_type: MoveType::Promotion(PieceType::King) };
    assert_eq!(bad.to_coordinate(), None);
}

#[test]
fn attack_patterns() {
    // knight on b1 reaches a3, c3 and d2
    assert_eq!(knight_attacks(1), Bitboard((1u64 << 16) | (1u64 << 18) | (1u64 << 11)));
    // king in the corner a1 reaches a2, b1, b2
    assert_eq!(king_attacks(0), Bitboard((1u64 << 1) | (1u64 << 8) | (1u64 << 9)));
    // a white pawn on e2 attacks d3 and f3, a black one on e7 attacks d6 and f6
    assert_eq!(pawn_attacks(0, 12), Bitboard((1u64 << 19) | (1u64 << 21)));
    assert_eq!(pawn_attacks(1, 52), Bitboard((1u64 << 43) | (1u64 << 45)));
    // edge pawns attack one square only
    assert_eq!(pawn_attacks(0, 8), Bitboard(1u64 << 17));
    assert_eq!(pawn_pushes(0, 12), Bitboard(1u64 << 20));
    assert_eq!(pawn_double_pushes(0, 12), Bitboard(1u64 << 28));
    assert_eq!(pawn_double_pushes(0, 20), Bitboard(0));
    assert_eq!(pawn_double_pushes(1, 52), Bitboard(1u64 << 36));
    // the north ray from a1 is the rest of the a-file
    assert_eq!(north_ray(0), Bitboard(0x0101_0101_0101_0100));
    assert_eq!(southwest_ray(0), Bitboard(0));
}

#[test]
fn sliding_attacks_stop_at_blockers() {
    // rook on a1 with a blocker on a4 and one on d1
    let occupancy = Bitboard((1u64 << 24) | (1u64 << 3));
    let expected = Bitboard((1u64 << 8) | (1u64 << 16) | (1u64 << 24) | (1u64 << 1) | (1u64 << 2) | (1u64 << 3));
    assert_eq!(rook_attacks(0, occupancy), expected);
    // bishop on c1 with a blocker on e3
    let occupancy = Bitboard(1u64 << 20);
    let expected = Bitboard((1u64 << 9) | (1u64 << 16) | (1u64 << 11) | (1u64 << 20));
    assert_eq!(bishop_attacks(2, occupancy), expected);
    // on an empty board a rook always sees 14 squares
    for square in 0..64usize {
        assert_eq!(rook_attacks(square, Bitboard(0)).count(), 14);
    }
}

#[test]
fn bitboard_tables_agree_with_generators() {
    let tables = generate_bitboard_tables();
    for square in 0..64usize {
        assert_eq!(tables.knight_attacks[square], knight_attacks(square));
        assert_eq!(tables.king_attacks[square], king_attacks(square));
        assert_eq!(tables.north_ray[square], north_ray(square));
        assert_eq!(tables.southwest_ray[square], southwest_ray(square));
        for color in 0..2usize {
            assert_eq!(tables.pawn_attacks[color][square], pawn_attacks(color, square));
            assert_eq!(tables.pawn_moves[color][square], pawn_pushes(color, square));
            assert_eq!(tables.pawn_double_moves[color][square], pawn_double_pushes(color, square));
        }
    }
}

#[test]
fn splitmix_outputs() {
    let mut state = zobrist::SEED;
    let first = zobrist::splitmix64_next(&mut state);
    assert_eq!(first, 0x6e78_9e6a_a1b9_65f4);
    assert_eq!(state, zobrist::SEED.wrapping_add(zobrist::GAMMA));
    assert_eq!(zobrist::splitmix_output_at(zobrist::SEED, 1), first);
    let second = zobrist::splitmix64_next(&mut state);
    assert_eq!(zobrist::splitmix_output_at(zobrist::SEED, 2), second);
    assert_eq!(second, 0x06c4_5d18_8009_454f);
}

#[test]
fn hashing_keys() {
    assert_eq!(zobrist::color(), 0x9195_b6d5_00d6_ae15);
    assert_eq!(zobrist::piece_square(PieceType::Pawn, Color::White, 0), 0x6e78_9e6a_a1b9_65f4);
    let tables = Zobrist::standard();
    assert_eq!(tables.color(), 0x6e78_9e6a_a1b9_65f4);
    assert_eq!(tables.piece_square(PieceType::Pawn, Color::White, 0), 0x06c4_5d18_8009_454f);
    assert_eq!(tables.en_passant(0), 0xe9bf_f1ac_37cd_3760);
    assert_eq!(tables.kingside_castling(Color::White), 0xfbe3_ff25_e49e_4f60);
    let generated = zobrist::generate_zobrist_tables(zobrist::SEED);
    assert_eq!(generated.color, zobrist::color());
    assert_eq!(generated.pieces[0], zobrist::piece_square(PieceType::Pawn, Color::White, 0));
    assert_eq!(generated.en_passant[20], zobrist::en_passant(20));
    assert_eq!(generated.castling[1], zobrist::kingside_castling(Color::Black));
    assert_eq!(generated.castling[3], zobrist::queenside_castling(Color::Black));
}

#[test]
fn bitboard_picture() {
    let b = Bitboard((1u64 << 0) | (1u64 << 63));
    let frame = " +---+---+---+---+---+---+---+---+\n";
    let mut expected = String::from("Bitboard: 1");
    expected.push_str(&"0".repeat(62));
    expected.push_str("1\n");
    expected.push_str(frame);
    expected.push_str(" |   |   |   |   |   |   |   | X |\n");
    for _ in 0..6 {
        expected.push_str(frame);
        expected.push_str(" |   |   |   |   |   |   |   |   |\n");
    }
    expected.push_str(frame);
    expected.push_str(" | X |   |   |   |   |   |   |   |\n");
    expected.push_str(frame);
    assert_eq!(b.to_picture(), expected);
}
