use vstd::prelude::*;
use vstd::string::*;
use crate::bitboard::{bit, group_bit_lemmas, is_square, lemma_bit_and, lemma_bit_ops, lemma_bit_single, lemma_bit_zero_iff, lemma_bitboard_ext, lemma_bits_ext, lemma_popcount_one, lemma_popcount_set, lemma_popcount_zero, popcount, Bitboard};
use crate::pieces::{CastlingRights, Color, Move, MoveType, PieceType};
use crate::zobrist;

verus! {

broadcast use group_bit_lemmas;

/// The state that a move changes and that unmaking it restores.
#[derive(Debug, Clone, Copy, PartialEq, Eq, Structural)]
pub struct BoardMetadata {
    pub castling_rights: CastlingRights,
    pub en_passant_square: Option<u8>,
    pub rule50: u32,
    pub zobrist: u64,
}

/// Represents an individual chess board state.
#[derive(Debug, Clone)]
pub struct Board {
    colors: [Bitboard; 2],
    pieces: [Bitboard; 6],
    halfmove_number: u32,
    active_color: Color,
    metadata: Vec<BoardMetadata>,
    moves: Vec<(Move, Option<PieceType>)>,
}

/// The home square of a color's king.
pub open spec fn king_home(color: Color) -> int {
    match color {
        Color::White => 4,
        Color::Black => 60,
    }
}

/// The home square of a color's rook on one side.
pub open spec fn rook_home(kingside: bool, color: Color) -> int {
    match (kingside, color) {
        (true, Color::White) => 7,
        (false, Color::White) => 0,
        (true, Color::Black) => 63,
        (false, Color::Black) => 56,
    }
}

/// Whether a piece of the given type leaving or being captured on `square`
/// removes the castling right of `color` on the given side. The piece's color
/// is not consulted.
pub open spec fn revokes(piece_type: PieceType, square: int, kingside: bool, color: Color) -> bool {
    (piece_type == PieceType::King && square == king_home(color)) || (piece_type == PieceType::Rook
        && square == rook_home(kingside, color))
}

/// Clears one castling flag, toggling its key in the hash if it was set.
pub open spec fn clear_right(
    state: (CastlingRights, u64),
    kingside: bool,
    color: Color,
) -> (CastlingRights, u64) {
    if state.0.spec_has(kingside, color) {
        (state.0.spec_set(kingside, color, false), state.1 ^ zobrist::spec_castling_key(kingside, color))
    } else {
        state
    }
}

/// The castling rights and hash after a piece of the given type leaves or is
/// captured on `square`.
pub open spec fn revoke_rights(state: (CastlingRights, u64), piece_type: PieceType, square: int) -> (
    CastlingRights,
    u64,
) {
    if piece_type == PieceType::King && square == 4 {
        clear_right(clear_right(state, true, Color::White), false, Color::White)
    } else if piece_type == PieceType::King && square == 60 {
        clear_right(clear_right(state, true, Color::Black), false, Color::Black)
    } else if piece_type == PieceType::Rook && square == 0 {
        clear_right(state, false, Color::White)
    } else if piece_type == PieceType::Rook && square == 7 {
        clear_right(state, true, Color::White)
    } else if piece_type == PieceType::Rook && square == 56 {
        clear_right(state, false, Color::Black)
    } else if piece_type == PieceType::Rook && square == 63 {
        clear_right(state, true, Color::Black)
    } else {
        state
    }
}

/// The squares that castling moves the rook from and to.
pub open spec fn castling_rook_squares(from: int, kingside: bool) -> (int, int) {
    if kingside {
        (from + 3, from + 1)
    } else {
        (from - 4, from - 1)
    }
}

proof fn lemma_piece_square_index_small(piece_type: PieceType, color: Color, square: usize)
    requires
        square < 64,
    ensures
        zobrist::piece_square_index(piece_type, color, square) < 768,
        zobrist::piece_square_index(piece_type, color, square) == zobrist::piece_number(piece_type, color) * 64 + square,
{
    lemma_shift_or(zobrist::piece_number(piece_type, color) as usize, square);
}

proof fn lemma_shift_or(p: usize, square: usize)
    by (bit_vector)
    requires
        p < 12,
        square < 64,
    ensures
        (p << 6usize) | square == p * 64 + square,
        p * 64 + square < 768,
{
}

/// Unmaking a move restores what making it changed: the same pieces on every
/// square, the same side to move and move number, the same earlier metadata
/// and move history, and the same castling rights, en passant square and
/// fifty-move counter. The restored hash differs from the one before the move
/// by the side-to-move key.
pub proof fn lemma_unmake_inverts_make(b0: Board, mv: Move, b1: Board, b2: Board)
    requires
        b0.wf(),
        b0.applicable(mv),
        Board::made(b0, mv, b1),
        Board::unmade(b1, b2),
    ensures
        forall|sq: int| #[trigger] b2.at(sq) == b0.at(sq),
        b2.spec_active() == b0.spec_active(),
        b2.spec_halfmove() == b0.spec_halfmove(),
        b2.history() == b0.history(),
        b2.metas().len() == b0.metas().len(),
        forall|i: int| 0 <= i < b0.metas().len() - 1 ==> #[trigger] b2.metas()[i] == b0.metas()[i],
        b2.meta() == (BoardMetadata { zobrist: b0.meta().zobrist ^ zobrist::spec_color(), ..b0.meta() }),
        b2.meta().castling_rights == b0.meta().castling_rights,
        b2.meta().en_passant_square == b0.meta().en_passant_square,
        b2.meta().rule50 == b0.meta().rule50,
{
    assert(b1.history().last() == (mv, b0.spec_captured(mv)));
    assert(b2.history() =~= b0.history());
    let from = mv.from as int;
    let to = mv.to as int;
    assert forall|sq: int| #[trigger] b2.at(sq) == b0.at(sq) by {
        if is_square(sq) {
            assert(b2.at(sq) == b1.undo_at(sq));
            assert(b1.at(sq) == b0.after_at(mv, sq));
            assert(b1.at(to) == b0.after_at(mv, to));
            assert(b0.square_consistent(sq));
            match mv.move_type {
                MoveType::Castling(kingside) => {
                    let (rook_from, rook_to) = castling_rook_squares(from, kingside);
                    assert(b1.at(rook_from) == b0.after_at(mv, rook_from));
                    assert(b1.at(rook_to) == b0.after_at(mv, rook_to));
                },
                _ => {},
            }
        } else {
            assert(b2.square_consistent(sq) || !is_square(sq));
            assert(!b2.has_type(sq, 0) && !b0.has_type(sq, 0));
            assert(!b2.has_type(sq, 1) && !b0.has_type(sq, 1));
            assert(!b2.has_type(sq, 2) && !b0.has_type(sq, 2));
            assert(!b2.has_type(sq, 3) && !b0.has_type(sq, 3));
            assert(!b2.has_type(sq, 4) && !b0.has_type(sq, 4));
            assert(!b2.has_type(sq, 5) && !b0.has_type(sq, 5));
        }
    }
    let n = b1.metas().len();
    assert(b1.metas()[n - 2] == b0.meta());
}

/// The piece that a placement list puts on a square.
pub open spec fn list_at(pieces: Seq<(usize, PieceType, Color)>, sq: int) -> Option<(PieceType, Color)>
    decreases pieces.len(),
{
    if pieces.len() == 0 {
        None
    } else if pieces.last().0 == sq {
        Some((pieces.last().1, pieces.last().2))
    } else {
        list_at(pieces.drop_last(), sq)
    }
}

/// The number of entries of a placement list with the given piece.
pub open spec fn list_count(pieces: Seq<(usize, PieceType, Color)>, piece_type: PieceType, color: Color) -> nat
    decreases pieces.len(),
{
    if pieces.len() == 0 {
        0
    } else {
        (if pieces.last().1 == piece_type && pieces.last().2 == color {
            1nat
        } else {
            0nat
        }) + list_count(pieces.drop_last(), piece_type, color)
    }
}

/// A placement list names squares of the board, each at most once.
pub open spec fn list_valid(pieces: Seq<(usize, PieceType, Color)>) -> bool {
    &&& forall|i: int| 0 <= i < pieces.len() ==> (#[trigger] pieces[i]).0 < 64
    &&& forall|i: int, j: int| 0 <= i < j < pieces.len() ==> (#[trigger] pieces[i]).0 != (#[trigger] pieces[j]).0
}

/// The hash of a placement list: the keys of its pieces toggled in order.
pub open spec fn list_hash(pieces: Seq<(usize, PieceType, Color)>) -> u64
    decreases pieces.len(),
{
    if pieces.len() == 0 {
        0
    } else {
        list_hash(pieces.drop_last()) ^ zobrist::spec_piece_square(
            pieces.last().1,
            pieces.last().2,
            pieces.last().0 as int,
        )
    }
}

/// The hash of a new position: its pieces' keys, the side-to-move key for
/// black, the keys of the castling rights held, and the en passant key
/// toggled twice.
pub open spec fn new_hash(
    pieces: Seq<(usize, PieceType, Color)>,
    castling_rights: CastlingRights,
    en_passant_square: Option<u8>,
    halfmove_number: u32,
) -> u64 {
    let z0 = list_hash(pieces);
    let z1 = if halfmove_number % 2 == 1 { z0 ^ zobrist::spec_color() } else { z0 };
    let z2 = if castling_rights.spec_kingside(Color::White) { z1 ^ zobrist::spec_castling_key(true, Color::White) } else { z1 };
    let z3 = if castling_rights.spec_queenside(Color::White) { z2 ^ zobrist::spec_castling_key(false, Color::White) } else { z2 };
    let z4 = if castling_rights.spec_kingside(Color::Black) { z3 ^ zobrist::spec_castling_key(true, Color::Black) } else { z3 };
    let z5 = if castling_rights.spec_queenside(Color::Black) { z4 ^ zobrist::spec_castling_key(false, Color::Black) } else { z4 };
    match en_passant_square {
        Some(e) => z5 ^ zobrist::spec_en_passant(e as int) ^ zobrist::spec_en_passant(e as int),
        None => z5,
    }
}

/// A castling right is backed by the king and the rook on their home squares.
pub open spec fn right_backed(pieces: Seq<(usize, PieceType, Color)>, kingside: bool, color: Color) -> bool {
    &&& list_at(pieces, king_home(color)) == Some((PieceType::King, color))
    &&& list_at(pieces, rook_home(kingside, color)) == Some((PieceType::Rook, color))
}

/// The error with which a new board is refused, if any, checked in order.
pub open spec fn new_error(
    pieces: Seq<(usize, PieceType, Color)>,
    castling_rights: CastlingRights,
    en_passant_square: Option<u8>,
    halfmove_number: u32,
    rule50: u32,
) -> Option<Seq<char>> {
    let active = if halfmove_number % 2 == 0 { Color::White } else { Color::Black };
    if list_count(pieces, PieceType::King, Color::White) != 1 {
        Some("There must be exactly one white king."@)
    } else if list_count(pieces, PieceType::King, Color::Black) != 1 {
        Some("There must be exactly one black king."@)
    } else if castling_rights.spec_kingside(Color::White) && !right_backed(pieces, true, Color::White) {
        Some("Invalid white kingside castling right. The king and rook do not reside on thier original squares"@)
    } else if castling_rights.spec_queenside(Color::White) && !right_backed(pieces, false, Color::White) {
        Some("Invalid white queenside castling right. The king and rook do not reside on thier original squares"@)
    } else if castling_rights.spec_kingside(Color::Black) && !right_backed(pieces, true, Color::Black) {
        Some("Invalid black kingside castling right. The king and rook do not reside on thier original squares"@)
    } else if castling_rights.spec_queenside(Color::Black) && !right_backed(pieces, false, Color::Black) {
        Some("Invalid black queenside castling right. The king and rook do not reside on thier original squares"@)
    } else if en_passant_square is Some && en_passant_square.unwrap() / 8 != 2 && en_passant_square.unwrap() / 8 != 5 {
        Some("En passant square must be on either the 3rd or 6th ranks."@)
    } else if en_passant_square is Some && !en_passant_backed(pieces, en_passant_square.unwrap() as int, active) {
        Some("Invalid en passant square. A pawn double jump could not have occured on the last move"@)
    } else if rule50 > halfmove_number {
        Some("rule50 cannot be larger than the halfmove number."@)
    } else {
        None
    }
}

/// An en passant square on the 3rd or 6th rank is backed by a double pawn
/// push of the other color on the last move: that color's pawn stands in
/// front of it, and it and the square the pawn started from are empty.
pub open spec fn en_passant_backed(pieces: Seq<(usize, PieceType, Color)>, e: int, active: Color) -> bool {
    let file = e % 8;
    let (source, destination, color) = if e / 8 == 2 {
        (8 + file, 24 + file, Color::Black)
    } else {
        (48 + file, 32 + file, Color::White)
    };
    &&& active == color
    &&& list_at(pieces, source) is None
    &&& list_at(pieces, e) is None
    &&& list_at(pieces, destination) == Some((PieceType::Pawn, color.spec_opposite()))
}

/// The square of a list entry is not named by any earlier entry.
proof fn lemma_list_at_absent(pieces: Seq<(usize, PieceType, Color)>, i: int)
    requires
        list_valid(pieces),
        0 <= i < pieces.len(),
    ensures
        list_at(pieces.subrange(0, i), pieces[i].0 as int) is None,
    decreases i,
{
    let prefix = pieces.subrange(0, i);
    if i > 0 {
        assert(prefix.last() == pieces[i - 1]);
        assert(pieces[i - 1].0 != pieces[i].0);
        assert(prefix.drop_last() =~= pieces.subrange(0, i - 1));
        lemma_list_at_absent_inner(pieces, i - 1, pieces[i].0 as int);
    }
}

proof fn lemma_list_at_absent_inner(pieces: Seq<(usize, PieceType, Color)>, k: int, sq: int)
    requires
        list_valid(pieces),
        0 <= k < pieces.len(),
        forall|j: int| 0 <= j <= k ==> pieces[j].0 != sq,
    ensures
        list_at(pieces.subrange(0, k + 1), sq) is None,
    decreases k,
{
    let prefix = pieces.subrange(0, k + 1);
    assert(prefix.last() == pieces[k]);
    assert(pieces[k].0 != sq);
    if k > 0 {
        assert(prefix.drop_last() =~= pieces.subrange(0, k));
        lemma_list_at_absent_inner(pieces, k - 1, sq);
        assert(list_at(prefix.drop_last(), sq) is None);
    } else {
        assert(prefix.drop_last() =~= Seq::<(usize, PieceType, Color)>::empty());
        assert(list_at(Seq::<(usize, PieceType, Color)>::empty(), sq) is None);
        assert(list_at(prefix.drop_last(), sq) is None);
    }
}

/// An empty square is in no piece bitboard.
proof fn lemma_spec_pieces_absent(b: Board, sq: int, pt: PieceType, c: Color)
    requires
        b.placement_ok(),
        is_square(sq),
        b.at(sq) is None,
    ensures
        !bit(b.spec_pieces(pt, c).0, sq as u64),
{
    b.lemma_spec_pieces(pt, c, sq);
}

proof fn lemma_rank_file_bits(e: usize)
    by (bit_vector)
    requires
        e < 64,
    ensures
        e >> 3usize == e / 8,
        e & 7usize == e % 8,
{
}

/// The number of metadata entries with the given hash.
pub open spec fn count_hash(metas: Seq<BoardMetadata>, z: u64) -> nat
    decreases metas.len(),
{
    if metas.len() == 0 {
        0
    } else {
        (if metas.last().zobrist == z {
            1nat
        } else {
            0nat
        }) + count_hash(metas.drop_last(), z)
    }
}

/// Counting a range from its front: the first entry plus the rest.
proof fn lemma_count_hash_front(s: Seq<BoardMetadata>, lo: int, hi: int, z: u64)
    requires
        0 <= lo < hi <= s.len(),
    ensures
        count_hash(s.subrange(lo, hi), z) == (if s[lo].zobrist == z {
            1nat
        } else {
            0nat
        }) + count_hash(s.subrange(lo + 1, hi), z),
    decreases hi - lo,
{
    let r = s.subrange(lo, hi);
    assert(r.drop_last() =~= s.subrange(lo, hi - 1));
    if lo + 1 == hi {
        assert(s.subrange(lo + 1, hi) =~= Seq::<BoardMetadata>::empty());
        assert(r.drop_last() =~= Seq::<BoardMetadata>::empty());
        assert(count_hash(Seq::<BoardMetadata>::empty(), z) == 0);
    } else {
        lemma_count_hash_front(s, lo, hi - 1, z);
        assert(s.subrange(lo + 1, hi).drop_last() =~= s.subrange(lo + 1, hi - 1));
    }
}

impl Board {
    // ---------------------------------------------------------------------
    // The model of a board

    /// The bitboard of a piece type, by index.
    pub closed spec fn type_bb(&self, p: int) -> Bitboard {
        self.pieces[p]
    }

    /// The bitboard of a color, by index.
    pub closed spec fn color_bb(&self, c: int) -> Bitboard {
        self.colors[c]
    }

    /// Whether a piece of type index `p` stands on `sq`.
    pub open spec fn has_type(&self, sq: int, p: int) -> bool {
        self.type_bb(p).has(sq)
    }

    /// The color of a piece on `sq`: black when the black bitboard holds it.
    pub open spec fn color_on(&self, sq: int) -> Color {
        if self.color_bb(1).has(sq) {
            Color::Black
        } else {
            Color::White
        }
    }

    /// The piece on a square, if any.
    pub open spec fn at(&self, sq: int) -> Option<(PieceType, Color)> {
        if self.has_type(sq, 0) {
            Some((PieceType::Pawn, self.color_on(sq)))
        } else if self.has_type(sq, 1) {
            Some((PieceType::Knight, self.color_on(sq)))
        } else if self.has_type(sq, 2) {
            Some((PieceType::Bishop, self.color_on(sq)))
        } else if self.has_type(sq, 3) {
            Some((PieceType::Rook, self.color_on(sq)))
        } else if self.has_type(sq, 4) {
            Some((PieceType::Queen, self.color_on(sq)))
        } else if self.has_type(sq, 5) {
            Some((PieceType::King, self.color_on(sq)))
        } else {
            None
        }
    }

    /// The number of piece types whose bitboards hold `sq`.
    pub open spec fn types_on(&self, sq: int) -> int {
        (if self.has_type(sq, 0) { 1int } else { 0 }) + (if self.has_type(sq, 1) { 1int } else { 0 })
            + (if self.has_type(sq, 2) { 1int } else { 0 }) + (if self.has_type(sq, 3) { 1int } else { 0 })
            + (if self.has_type(sq, 4) { 1int } else { 0 }) + (if self.has_type(sq, 5) { 1int } else { 0 })
    }

    /// The bitboards agree on a square: at most one piece type, at most one
    /// color, and a color exactly when a piece type.
    pub open spec fn square_consistent(&self, sq: int) -> bool {
        &&& self.types_on(sq) <= 1
        &&& !(self.color_bb(0).has(sq) && self.color_bb(1).has(sq))
        &&& (self.color_bb(0).has(sq) || self.color_bb(1).has(sq)) == (self.types_on(sq) == 1)
    }

    /// The metadata of the current position.
    pub closed spec fn meta(&self) -> BoardMetadata {
        self.metadata@.last()
    }

    /// The current metadata is the last of the recorded ones.
    pub proof fn lemma_meta_last(&self)
        ensures
            self.meta() == self.metas().last(),
    {
    }

    /// The metadata of every position since the board was set up.
    pub closed spec fn metas(&self) -> Seq<BoardMetadata> {
        self.metadata@
    }

    /// The moves made since the board was set up, each with the piece type
    /// that it captured.
    pub closed spec fn history(&self) -> Seq<(Move, Option<PieceType>)> {
        self.moves@
    }

    pub closed spec fn spec_active(&self) -> Color {
        self.active_color
    }

    pub closed spec fn spec_halfmove(&self) -> u32 {
        self.halfmove_number
    }

    /// The bitboards agree on every square.
    pub open spec fn placement_ok(&self) -> bool {
        forall|sq: int| is_square(sq) ==> #[trigger] self.square_consistent(sq)
    }

    /// Well-formedness: the bitboards agree, there is one metadata entry more
    /// than moves, and the counters cannot run below their histories.
    pub open spec fn wf(&self) -> bool {
        &&& self.placement_ok()
        &&& self.metas().len() == self.history().len() + 1
        &&& self.history().len() <= self.spec_halfmove()
        &&& forall|i: int|
            0 <= i < self.metas().len() ==> #[trigger] self.metas()[i].rule50 + (self.metas().len() - 1 - i)
                <= self.spec_halfmove()
        &&& forall|i: int|
            0 <= i < self.metas().len() ==> ((#[trigger] self.metas()[i]).en_passant_square matches Some(e)
                ==> e < 64)
    }

    // ---------------------------------------------------------------------
    // Public getters

    pub fn piece_at(&self, square: usize) -> (r: Option<(PieceType, Color)>)
        requires
            square < 64,
        ensures
            r == self.at(square as int),
    {
        let types = [
            PieceType::Pawn,
            PieceType::Knight,
            PieceType::Bishop,
            PieceType::Rook,
            PieceType::Queen,
            PieceType::King,
        ];
        let mut i: usize = 0;
        while i < 6
            invariant
                i <= 6,
                square < 64,
                types@ == seq![
                    PieceType::Pawn,
                    PieceType::Knight,
                    PieceType::Bishop,
                    PieceType::Rook,
                    PieceType::Queen,
                    PieceType::King,
                ],
                forall|j: int| 0 <= j < i ==> !self.has_type(square as int, j),
            decreases 6 - i,
        {
            let piece_type = types[i];
            if self.pieces[piece_type.index()].contains(square) {
                let color = if self.pieces_of_color(Color::Black).contains(square) {
                    Color::Black
                } else {
                    Color::White
                };
                return Some((piece_type, color));
            }
            i += 1;
        }
        None
    }

    pub fn castling_rights(&self) -> (r: CastlingRights)
        requires
            self.wf(),
        ensures
            r == self.meta().castling_rights,
    {
        self.metadata[self.metadata.len() - 1].castling_rights
    }

    pub fn en_passant_square(&self) -> (r: Option<u8>)
        requires
            self.wf(),
        ensures
            r == self.meta().en_passant_square,
    {
        self.metadata[self.metadata.len() - 1].en_passant_square
    }

    pub fn halfmove_number(&self) -> (r: u32)
        ensures
            r == self.spec_halfmove(),
    {
        self.halfmove_number
    }

    pub fn active_color(&self) -> (r: Color)
        ensures
            r == self.spec_active(),
    {
        self.active_color
    }

    pub fn rule50(&self) -> (r: u32)
        requires
            self.wf(),
        ensures
            r == self.meta().rule50,
    {
        self.metadata[self.metadata.len() - 1].rule50
    }

    pub fn zobrist(&self) -> (r: u64)
        requires
            self.wf(),
        ensures
            r == self.meta().zobrist,
    {
        self.metadata[self.metadata.len() - 1].zobrist
    }

    /// The union of both colors' pieces.
    pub fn all_pieces(&self) -> (r: Bitboard)
        ensures
            r == Bitboard(self.color_bb(0).0 | self.color_bb(1).0),
            r@ == self.color_bb(0)@.union(self.color_bb(1)@),
    {
        self.colors[0].or(self.colors[1])
    }

    pub fn pieces_of_color(&self, color: Color) -> (r: Bitboard)
        ensures
            r == self.color_bb(color.spec_index()),
    {
        self.colors[color.index()]
    }

    /// The squares holding pieces of the given type and color.
    pub open spec fn spec_pieces(&self, piece_type: PieceType, color: Color) -> Bitboard {
        Bitboard(self.type_bb(piece_type.spec_index()).0 & self.color_bb(color.spec_index()).0)
    }

    fn pieces_of(&self, piece_type: PieceType, color: Color) -> (r: Bitboard)
        ensures
            r == self.spec_pieces(piece_type, color),
            r@ == self.type_bb(piece_type.spec_index())@.intersect(self.color_bb(color.spec_index())@),
    {
        self.pieces[piece_type.index()].and(self.pieces_of_color(color))
    }

    pub fn pawns(&self, color: Color) -> (r: Bitboard)
        ensures
            r == self.spec_pieces(PieceType::Pawn, color),
    {
        self.pieces_of(PieceType::Pawn, color)
    }

    pub fn knights(&self, color: Color) -> (r: Bitboard)
        ensures
            r == self.spec_pieces(PieceType::Knight, color),
    {
        self.pieces_of(PieceType::Knight, color)
    }

    pub fn bishops(&self, color: Color) -> (r: Bitboard)
        ensures
            r == self.spec_pieces(PieceType::Bishop, color),
    {
        self.pieces_of(PieceType::Bishop, color)
    }

    pub fn rooks(&self, color: Color) -> (r: Bitboard)
        ensures
            r == self.spec_pieces(PieceType::Rook, color),
    {
        self.pieces_of(PieceType::Rook, color)
    }

    pub fn queens(&self, color: Color) -> (r: Bitboard)
        ensures
            r == self.spec_pieces(PieceType::Queen, color),
    {
        self.pieces_of(PieceType::Queen, color)
    }

    pub fn kings(&self, color: Color) -> (r: Bitboard)
        ensures
            r == self.spec_pieces(PieceType::King, color),
    {
        self.pieces_of(PieceType::King, color)
    }

    /// Under well-formedness, a square is in the bitboard of a piece type and
    /// a color exactly when that piece stands there.
    pub proof fn lemma_spec_pieces(&self, piece_type: PieceType, color: Color, sq: int)
        requires
            self.placement_ok(),
        ensures
            self.spec_pieces(piece_type, color).has(sq) == (self.at(sq) == Some((piece_type, color))),
    {
        if is_square(sq) {
            assert(self.square_consistent(sq));
            lemma_bit_and(self.type_bb(piece_type.spec_index()).0, self.color_bb(color.spec_index()).0, sq as u64);
        }
    }

    // ---------------------------------------------------------------------
    // Private mutable methods

    /// Replaces the metadata of the current position.
    fn set_meta(&mut self, m: BoardMetadata)
        requires
            old(self).metas().len() > 0,
        ensures
            final(self).metas() == old(self).metas().update(old(self).metas().len() - 1, m),
            final(self).history() == old(self).history(),
            final(self).spec_active() == old(self).spec_active(),
            final(self).spec_halfmove() == old(self).spec_halfmove(),
            forall|p: int| #[trigger] final(self).type_bb(p) == old(self).type_bb(p),
            forall|c: int| #[trigger] final(self).color_bb(c) == old(self).color_bb(c),
    {
        let n = self.metadata.len() - 1;
        self.metadata.set(n, m);
    }

    fn current_meta(&self) -> (r: BoardMetadata)
        requires
            self.metas().len() > 0,
        ensures
            r == self.meta(),
    {
        self.metadata[self.metadata.len() - 1]
    }

    /// Toggles a key in the hash of the current position.
    fn toggle_zobrist(&mut self, key: u64)
        requires
            old(self).metas().len() > 0,
        ensures
            final(self).metas() == old(self).metas().update(
                old(self).metas().len() - 1,
                BoardMetadata { zobrist: old(self).meta().zobrist ^ key, ..old(self).meta() },
            ),
            final(self).history() == old(self).history(),
            final(self).spec_active() == old(self).spec_active(),
            final(self).spec_halfmove() == old(self).spec_halfmove(),
            forall|p: int| #[trigger] final(self).type_bb(p) == old(self).type_bb(p),
            forall|c: int| #[trigger] final(self).color_bb(c) == old(self).color_bb(c),
    {
        let mut m = self.current_meta();
        m.zobrist = m.zobrist ^ key;
        self.set_meta(m);
    }

    /// Adds a piece to an empty square without touching the hash.
    fn put_piece_no_zobrist(&mut self, piece_type: PieceType, color: Color, square: usize)
        requires
            old(self).placement_ok(),
            square < 64,
            old(self).at(square as int) is None,
        ensures
            final(self).placement_ok(),
            forall|sq: int| #[trigger] final(self).at(sq) == if sq == square {
                Some((piece_type, color))
            } else {
                old(self).at(sq)
            },
            final(self).metas() == old(self).metas(),
            final(self).history() == old(self).history(),
            final(self).spec_active() == old(self).spec_active(),
            final(self).spec_halfmove() == old(self).spec_halfmove(),
    {
        let ghost o = *self;
        let p = piece_type.index();
        let c = color.index();
        proof {
            assert(o.square_consistent(square as int));
        }
        self.pieces[p] = self.pieces[p].with_set(square);
        self.colors[c] = self.colors[c].with_set(square);
        proof {
            assert forall|sq: int| is_square(sq) implies #[trigger] self.square_consistent(sq) by {
                assert(o.square_consistent(sq));
                assert forall|q: int| 0 <= q < 6 implies #[trigger] self.has_type(sq, q) == (o.has_type(sq, q) || (q == p && sq == square)) by {
                    if q == p {
                        assert(self.type_bb(q)@ == o.type_bb(q)@.insert(square as int));
                    }
                }
                assert forall|q: int| 0 <= q < 2 implies #[trigger] self.color_bb(q).has(sq) == (o.color_bb(q).has(sq) || (q == c && sq == square)) by {
                    if q == c {
                        assert(self.color_bb(q)@ == o.color_bb(q)@.insert(square as int));
                    }
                }
            }
            assert forall|sq: int| #[trigger] self.at(sq) == if sq == square {
                Some((piece_type, color))
            } else {
                o.at(sq)
            } by {
                assert forall|q: int| 0 <= q < 6 implies #[trigger] self.has_type(sq, q) == (o.has_type(sq, q) || (q == p && sq == square)) by {
                    if q == p {
                        assert(self.type_bb(q)@ == o.type_bb(q)@.insert(square as int));
                    }
                }
                assert forall|q: int| 0 <= q < 2 implies #[trigger] self.color_bb(q).has(sq) == (o.color_bb(q).has(sq) || (q == c && sq == square)) by {
                    if q == c {
                        assert(self.color_bb(q)@ == o.color_bb(q)@.insert(square as int));
                    }
                }
                if sq == square {
                    assert(o.types_on(sq) == 0);
                }
            }
        }
    }

    /// Removes a piece from its square without touching the hash.
    fn remove_piece_no_zobrist(&mut self, piece_type: PieceType, color: Color, square: usize)
        requires
            old(self).placement_ok(),
            square < 64,
            old(self).at(square as int) == Some((piece_type, color)),
        ensures
            final(self).placement_ok(),
            forall|sq: int| #[trigger] final(self).at(sq) == if sq == square {
                None
            } else {
                old(self).at(sq)
            },
            final(self).metas() == old(self).metas(),
            final(self).history() == old(self).history(),
            final(self).spec_active() == old(self).spec_active(),
            final(self).spec_halfmove() == old(self).spec_halfmove(),
    {
        let ghost o = *self;
        let p = piece_type.index();
        let c = color.index();
        proof {
            assert(o.square_consistent(square as int));
        }
        self.pieces[p] = self.pieces[p].with_clear(square);
        self.colors[c] = self.colors[c].with_clear(square);
        proof {
            assert forall|sq: int| is_square(sq) implies #[trigger] self.square_consistent(sq) by {
                assert(o.square_consistent(sq));
                assert forall|q: int| 0 <= q < 6 implies #[trigger] self.has_type(sq, q) == (o.has_type(sq, q) && !(q == p && sq == square)) by {
                    if q == p {
                        assert(self.type_bb(q)@ == o.type_bb(q)@.remove(square as int));
                    }
                }
                assert forall|q: int| 0 <= q < 2 implies #[trigger] self.color_bb(q).has(sq) == (o.color_bb(q).has(sq) && !(q == c && sq == square)) by {
                    if q == c {
                        assert(self.color_bb(q)@ == o.color_bb(q)@.remove(square as int));
                    }
                }
            }
            assert forall|sq: int| #[trigger] self.at(sq) == if sq == square {
                None
            } else {
                o.at(sq)
            } by {
                assert forall|q: int| 0 <= q < 6 implies #[trigger] self.has_type(sq, q) == (o.has_type(sq, q) && !(q == p && sq == square)) by {
                    if q == p {
                        assert(self.type_bb(q)@ == o.type_bb(q)@.remove(square as int));
                    }
                }
                assert forall|q: int| 0 <= q < 2 implies #[trigger] self.color_bb(q).has(sq) == (o.color_bb(q).has(sq) && !(q == c && sq == square)) by {
                    if q == c {
                        assert(self.color_bb(q)@ == o.color_bb(q)@.remove(square as int));
                    }
                }
                if sq == square {
                    assert(o.types_on(sq) == 1);
                }
            }
        }
    }

    /// Adds a piece to an empty square.
    fn put_piece(&mut self, piece_type: PieceType, color: Color, square: usize)
        requires
            old(self).metas().len() > 0,
            old(self).placement_ok(),
            square < 64,
            old(self).at(square as int) is None,
        ensures
            final(self).placement_ok(),
            forall|sq: int| #[trigger] final(self).at(sq) == if sq == square {
                Some((piece_type, color))
            } else {
                old(self).at(sq)
            },
            final(self).metas() == old(self).metas().update(
                old(self).metas().len() - 1,
                BoardMetadata {
                    zobrist: old(self).meta().zobrist ^ zobrist::spec_piece_square(piece_type, color, square as int),
                    ..old(self).meta()
                },
            ),
            final(self).history() == old(self).history(),
            final(self).spec_active() == old(self).spec_active(),
            final(self).spec_halfmove() == old(self).spec_halfmove(),
    {
        self.put_piece_no_zobrist(piece_type, color, square);
        let ghost mid = *self;
        proof {
            lemma_piece_square_index_small(piece_type, color, square);
        }
        let key = zobrist::piece_square(piece_type, color, square);
        self.toggle_zobrist(key);
        proof {
            self.lemma_same_bitboards(&mid);
        }
    }

    /// Removes a piece from its square.
    fn remove_piece(&mut self, piece_type: PieceType, color: Color, square: usize)
        requires
            old(self).metas().len() > 0,
            old(self).placement_ok(),
            square < 64,
            old(self).at(square as int) == Some((piece_type, color)),
        ensures
            final(self).placement_ok(),
            forall|sq: int| #[trigger] final(self).at(sq) == if sq == square {
                None
            } else {
                old(self).at(sq)
            },
            final(self).metas() == old(self).metas().update(
                old(self).metas().len() - 1,
                BoardMetadata {
                    zobrist: old(self).meta().zobrist ^ zobrist::spec_piece_square(piece_type, color, square as int),
                    ..old(self).meta()
                },
            ),
            final(self).history() == old(self).history(),
            final(self).spec_active() == old(self).spec_active(),
            final(self).spec_halfmove() == old(self).spec_halfmove(),
    {
        self.remove_piece_no_zobrist(piece_type, color, square);
        let ghost mid = *self;
        proof {
            lemma_piece_square_index_small(piece_type, color, square);
        }
        let key = zobrist::piece_square(piece_type, color, square);
        self.toggle_zobrist(key);
        proof {
            self.lemma_same_bitboards(&mid);
        }
    }

    /// Boards with the same bitboards have the same pieces.
    proof fn lemma_same_bitboards(&self, o: &Board)
        requires
            forall|p: int| #[trigger] self.type_bb(p) == o.type_bb(p),
            forall|c: int| #[trigger] self.color_bb(c) == o.color_bb(c),
        ensures
            forall|sq: int| #[trigger] self.at(sq) == o.at(sq),
            forall|sq: int| #[trigger] self.square_consistent(sq) == o.square_consistent(sq),
    {
        assert(self.type_bb(0) == o.type_bb(0));
        assert(self.type_bb(1) == o.type_bb(1));
        assert(self.type_bb(2) == o.type_bb(2));
        assert(self.type_bb(3) == o.type_bb(3));
        assert(self.type_bb(4) == o.type_bb(4));
        assert(self.type_bb(5) == o.type_bb(5));
        assert(self.color_bb(0) == o.color_bb(0));
        assert(self.color_bb(1) == o.color_bb(1));
    }

    /// Passes the move to the other color.
    fn flip_color(&mut self)
        requires
            old(self).metas().len() > 0,
        ensures
            final(self).spec_active() == old(self).spec_active().spec_opposite(),
            final(self).metas() == old(self).metas().update(
                old(self).metas().len() - 1,
                BoardMetadata { zobrist: old(self).meta().zobrist ^ zobrist::spec_color(), ..old(self).meta() },
            ),
            final(self).history() == old(self).history(),
            final(self).spec_halfmove() == old(self).spec_halfmove(),
            forall|p: int| #[trigger] final(self).type_bb(p) == old(self).type_bb(p),
            forall|c: int| #[trigger] final(self).color_bb(c) == old(self).color_bb(c),
    {
        self.active_color = self.active_color.opposite();
        self.toggle_zobrist(zobrist::color());
    }

    /// Sets one castling flag of the current position, toggling its key in
    /// the hash when the flag changes.
    fn set_castling(&mut self, kingside: bool, color: Color, value: bool)
        requires
            old(self).metas().len() > 0,
        ensures
            ({
                let m = old(self).meta();
                let (r, z) = if m.castling_rights.spec_has(kingside, color) != value {
                    (
                        m.castling_rights.spec_set(kingside, color, value),
                        m.zobrist ^ zobrist::spec_castling_key(kingside, color),
                    )
                } else {
                    (m.castling_rights, m.zobrist)
                };
                final(self).metas() == old(self).metas().update(
                    old(self).metas().len() - 1,
                    BoardMetadata { castling_rights: r, zobrist: z, ..m },
                )
            }),
            final(self).history() == old(self).history(),
            final(self).spec_active() == old(self).spec_active(),
            final(self).spec_halfmove() == old(self).spec_halfmove(),
            forall|p: int| #[trigger] final(self).type_bb(p) == old(self).type_bb(p),
            forall|c: int| #[trigger] final(self).color_bb(c) == old(self).color_bb(c),
    {
        let mut m = self.current_meta();
        let current = if kingside {
            m.castling_rights.kingside(color)
        } else {
            m.castling_rights.queenside(color)
        };
        if current != value {
            if kingside {
                m.castling_rights.set_kingside(color, value);
                m.zobrist = m.zobrist ^ zobrist::kingside_castling(color);
            } else {
                m.castling_rights.set_queenside(color, value);
                m.zobrist = m.zobrist ^ zobrist::queenside_castling(color);
            }
        }
        self.set_meta(m);
    }

    fn set_kingside_castling(&mut self, color: Color, value: bool)
        requires
            old(self).metas().len() > 0,
        ensures
            ({
                let m = old(self).meta();
                let (r, z) = if m.castling_rights.spec_has(true, color) != value {
                    (
                        m.castling_rights.spec_set(true, color, value),
                        m.zobrist ^ zobrist::spec_castling_key(true, color),
                    )
                } else {
                    (m.castling_rights, m.zobrist)
                };
                final(self).metas() == old(self).metas().update(
                    old(self).metas().len() - 1,
                    BoardMetadata { castling_rights: r, zobrist: z, ..m },
                )
            }),
            final(self).history() == old(self).history(),
            final(self).spec_active() == old(self).spec_active(),
            final(self).spec_halfmove() == old(self).spec_halfmove(),
            forall|p: int| #[trigger] final(self).type_bb(p) == old(self).type_bb(p),
            forall|c: int| #[trigger] final(self).color_bb(c) == old(self).color_bb(c),
    {
        self.set_castling(true, color, value);
    }

    fn set_queenside_castling(&mut self, color: Color, value: bool)
        requires
            old(self).metas().len() > 0,
        ensures
            ({
                let m = old(self).meta();
                let (r, z) = if m.castling_rights.spec_has(false, color) != value {
                    (
                        m.castling_rights.spec_set(false, color, value),
                        m.zobrist ^ zobrist::spec_castling_key(false, color),
                    )
                } else {
                    (m.castling_rights, m.zobrist)
                };
                final(self).metas() == old(self).metas().update(
                    old(self).metas().len() - 1,
                    BoardMetadata { castling_rights: r, zobrist: z, ..m },
                )
            }),
            final(self).history() == old(self).history(),
            final(self).spec_active() == old(self).spec_active(),
            final(self).spec_halfmove() == old(self).spec_halfmove(),
            forall|p: int| #[trigger] final(self).type_bb(p) == old(self).type_bb(p),
            forall|c: int| #[trigger] final(self).color_bb(c) == old(self).color_bb(c),
    {
        self.set_castling(false, color, value);
    }

    /// Removes the castling rights that a piece of the given type on
    /// `square` stands for, once it leaves the square or is captured there.
    fn revoke_castling_rights_for_piece(&mut self, piece_type: PieceType, square: usize)
        requires
            old(self).metas().len() > 0,
        ensures
            ({
                let m = old(self).meta();
                let (r, z) = revoke_rights((m.castling_rights, m.zobrist), piece_type, square as int);
                final(self).metas() == old(self).metas().update(
                    old(self).metas().len() - 1,
                    BoardMetadata { castling_rights: r, zobrist: z, ..m },
                )
            }),
            final(self).history() == old(self).history(),
            final(self).spec_active() == old(self).spec_active(),
            final(self).spec_halfmove() == old(self).spec_halfmove(),
            forall|p: int| #[trigger] final(self).type_bb(p) == old(self).type_bb(p),
            forall|c: int| #[trigger] final(self).color_bb(c) == old(self).color_bb(c),
    {
        match (piece_type, square) {
            (PieceType::King, 4) => {
                self.set_kingside_castling(Color::White, false);
                self.set_queenside_castling(Color::White, false);
            },
            (PieceType::King, 60) => {
                self.set_kingside_castling(Color::Black, false);
                self.set_queenside_castling(Color::Black, false);
            },
            (PieceType::Rook, 0) => self.set_queenside_castling(Color::White, false),
            (PieceType::Rook, 7) => self.set_kingside_castling(Color::White, false),
            (PieceType::Rook, 56) => self.set_queenside_castling(Color::Black, false),
            (PieceType::Rook, 63) => self.set_kingside_castling(Color::Black, false),
            _ => {},
        }
    }

    /// Records an en passant square, which must be unset.
    fn put_en_passant(&mut self, square: usize)
        requires
            old(self).metas().len() > 0,
            square < 64,
        ensures
            final(self).metas() == old(self).metas().update(
                old(self).metas().len() - 1,
                BoardMetadata {
                    en_passant_square: Some(square as u8),
                    zobrist: old(self).meta().zobrist ^ zobrist::spec_en_passant(square as int),
                    ..old(self).meta()
                },
            ),
            final(self).history() == old(self).history(),
            final(self).spec_active() == old(self).spec_active(),
            final(self).spec_halfmove() == old(self).spec_halfmove(),
            forall|p: int| #[trigger] final(self).type_bb(p) == old(self).type_bb(p),
            forall|c: int| #[trigger] final(self).color_bb(c) == old(self).color_bb(c),
    {
        let mut m = self.current_meta();
        m.en_passant_square = Some(square as u8);
        m.zobrist = m.zobrist ^ zobrist::en_passant(square);
        self.set_meta(m);
    }

    // ---------------------------------------------------------------------
    // Making and unmaking moves

    /// The type of the piece on a square, if any.
    pub open spec fn type_at(&self, sq: int) -> Option<PieceType> {
        match self.at(sq) {
            Some((p, _)) => Some(p),
            None => None,
        }
    }

    /// Whether `mv` can be played on this board: its squares are on the
    /// board, a piece of the side to move stands on its source, and the
    /// squares that it empties and fills hold what the move type needs.
    pub open spec fn applicable(&self, mv: Move) -> bool {
        let from = mv.from as int;
        let to = mv.to as int;
        let mover = self.spec_active();
        let opp = mover.spec_opposite();
        &&& from < 64
        &&& to < 64
        &&& from != to
        &&& (self.at(from) matches Some((_, c)) && c == mover)
        &&& match mv.move_type {
            MoveType::Regular => (self.at(to) matches Some((_, c)) ==> c == opp),
            MoveType::Promotion(_) => {
                &&& self.at(from) == Some((PieceType::Pawn, mover))
                &&& (self.at(to) matches Some((_, c)) ==> c == opp)
            },
            MoveType::EnPassant(t) => {
                &&& self.at(from) == Some((PieceType::Pawn, mover))
                &&& t < 64
                &&& self.at(t as int) == Some((PieceType::Pawn, opp))
                &&& self.at(to) is None
            },
            MoveType::Castling(kingside) => {
                &&& self.at(from) == Some((PieceType::King, mover))
                &&& if kingside {
                    &&& to == from + 2
                    &&& from + 3 < 64
                    &&& self.at(from + 1) is None
                    &&& self.at(from + 2) is None
                    &&& self.at(from + 3) == Some((PieceType::Rook, mover))
                } else {
                    &&& from >= 4
                    &&& to == from - 2
                    &&& self.at(from - 1) is None
                    &&& self.at(from - 2) is None
                    &&& self.at(from - 4) == Some((PieceType::Rook, mover))
                }
            },
        }
    }

    /// The piece on a square after `mv` is played.
    pub open spec fn after_at(&self, mv: Move, sq: int) -> Option<(PieceType, Color)> {
        let from = mv.from as int;
        let to = mv.to as int;
        let mover = self.spec_active();
        match mv.move_type {
            MoveType::Regular => if sq == to {
                self.at(from)
            } else if sq == from {
                None
            } else {
                self.at(sq)
            },
            MoveType::Promotion(p) => if sq == to {
                Some((p, mover))
            } else if sq == from {
                None
            } else {
                self.at(sq)
            },
            MoveType::EnPassant(t) => if sq == to {
                Some((PieceType::Pawn, mover))
            } else if sq == from || sq == t as int {
                None
            } else {
                self.at(sq)
            },
            MoveType::Castling(kingside) => {
                let (rook_from, rook_to) = castling_rook_squares(from, kingside);
                if sq == to {
                    Some((PieceType::King, mover))
                } else if sq == rook_to {
                    Some((PieceType::Rook, mover))
                } else if sq == from || sq == rook_from {
                    None
                } else {
                    self.at(sq)
                }
            },
        }
    }

    /// The piece type that `mv` captures.
    pub open spec fn spec_captured(&self, mv: Move) -> Option<PieceType> {
        match mv.move_type {
            MoveType::Regular => self.type_at(mv.to as int),
            MoveType::Promotion(_) => self.type_at(mv.to as int),
            MoveType::EnPassant(_) => Some(PieceType::Pawn),
            MoveType::Castling(_) => None,
        }
    }

    /// The metadata of the position after `mv`: the fifty-move counter is
    /// reset by pawn moves and captures and otherwise counts up; the en
    /// passant square is set by a double pawn push and otherwise cleared;
    /// castling rights are revoked by kings and rooks leaving or being
    /// captured on their home squares; and the hash toggles the side to move,
    /// each revoked right, a new en passant square, and each piece that
    /// leaves or enters a square.
    #[verifier::opaque]
    pub open spec fn spec_make_meta(&self, mv: Move) -> BoardMetadata {
        let m = self.meta();
        let from = mv.from as int;
        let to = mv.to as int;
        let mover = self.spec_active();
        let opp = mover.spec_opposite();
        let z1 = m.zobrist ^ zobrist::spec_color();
        match mv.move_type {
            MoveType::Regular => {
                let moving = self.type_at(from).unwrap();
                let captured = self.type_at(to);
                let (r2, z2) = revoke_rights((m.castling_rights, z1), moving, from);
                let double = moving == PieceType::Pawn && (from - to == 16 || to - from == 16);
                let z3 = if double {
                    z2 ^ zobrist::spec_en_passant((from + to) / 2)
                } else {
                    z2
                };
                let (r4, z4) = match captured {
                    Some(cp) => revoke_rights((r2, z3 ^ zobrist::spec_piece_square(cp, opp, to)), cp, to),
                    None => (r2, z3),
                };
                let z5 = z4 ^ zobrist::spec_piece_square(moving, mover, from) ^ zobrist::spec_piece_square(
                    moving,
                    mover,
                    to,
                );
                BoardMetadata {
                    castling_rights: r4,
                    en_passant_square: if double {
                        Some(((from + to) / 2) as u8)
                    } else {
                        None
                    },
                    rule50: if moving == PieceType::Pawn || captured is Some {
                        0
                    } else {
                        (m.rule50 + 1) as u32
                    },
                    zobrist: z5,
                }
            },
            MoveType::Promotion(p) => {
                let captured = self.type_at(to);
                let (r2, z2) = match captured {
                    Some(cp) => revoke_rights((m.castling_rights, z1 ^ zobrist::spec_piece_square(cp, opp, to)), cp, to),
                    None => (m.castling_rights, z1),
                };
                let z3 = z2 ^ zobrist::spec_piece_square(PieceType::Pawn, mover, from) ^ zobrist::spec_piece_square(
                    p,
                    mover,
                    to,
                );
                BoardMetadata { castling_rights: r2, en_passant_square: None, rule50: 0, zobrist: z3 }
            },
            MoveType::EnPassant(t) => {
                let z2 = z1 ^ zobrist::spec_piece_square(PieceType::Pawn, opp, t as int)
                    ^ zobrist::spec_piece_square(PieceType::Pawn, mover, from) ^ zobrist::spec_piece_square(
                    PieceType::Pawn,
                    mover,
                    to,
                );
                BoardMetadata { castling_rights: m.castling_rights, en_passant_square: None, rule50: 0, zobrist: z2 }
            },
            MoveType::Castling(kingside) => {
                let (rook_from, rook_to) = castling_rook_squares(from, kingside);
                let (r2, z2) = clear_right(clear_right((m.castling_rights, z1), true, mover), false, mover);
                let z3 = z2 ^ zobrist::spec_piece_square(PieceType::Rook, mover, rook_from)
                    ^ zobrist::spec_piece_square(PieceType::Rook, mover, rook_to) ^ zobrist::spec_piece_square(
                    PieceType::King,
                    mover,
                    from,
                ) ^ zobrist::spec_piece_square(PieceType::King, mover, to);
                BoardMetadata {
                    castling_rights: r2,
                    en_passant_square: None,
                    rule50: (m.rule50 + 1) as u32,
                    zobrist: z3,
                }
            },
        }
    }

    /// `after` is `before` with `mv` made.
    pub open spec fn made(before: Board, mv: Move, after: Board) -> bool {
        &&& after.wf()
        &&& forall|sq: int| is_square(sq) ==> #[trigger] after.at(sq) == before.after_at(mv, sq)
        &&& after.spec_active() == before.spec_active().spec_opposite()
        &&& after.spec_halfmove() == before.spec_halfmove() + 1
        &&& after.metas() == before.metas().push(before.spec_make_meta(mv))
        &&& after.history() == before.history().push((mv, before.spec_captured(mv)))
    }

    /// Whether the last recorded move can be taken back on this board: the
    /// pieces that it moved stand on its destination squares and the squares
    /// that it emptied are empty.
    pub open spec fn undoable(&self) -> bool {
        let (mv, captured) = self.history().last();
        let from = mv.from as int;
        let to = mv.to as int;
        let mover = self.spec_active().spec_opposite();
        &&& self.history().len() > 0
        &&& from < 64
        &&& to < 64
        &&& from != to
        &&& self.at(from) is None
        &&& match mv.move_type {
            MoveType::Regular => (self.at(to) matches Some((_, c)) && c == mover),
            MoveType::Promotion(p) => self.at(to) == Some((p, mover)),
            MoveType::EnPassant(t) => {
                &&& self.at(to) == Some((PieceType::Pawn, mover))
                &&& t < 64
                &&& t as int != from
                &&& self.at(t as int) is None
                &&& captured == Some(PieceType::Pawn)
            },
            MoveType::Castling(kingside) => {
                let (rook_from, rook_to) = castling_rook_squares(from, kingside);
                &&& self.at(to) == Some((PieceType::King, mover))
                &&& 0 <= rook_from < 64
                &&& self.at(rook_to) == Some((PieceType::Rook, mover))
                &&& self.at(rook_from) is None
                &&& rook_to != to
                &&& captured is None
            },
        }
    }

    /// The piece on a square after the last recorded move is taken back.
    pub open spec fn undo_at(&self, sq: int) -> Option<(PieceType, Color)> {
        let (mv, captured) = self.history().last();
        let from = mv.from as int;
        let to = mv.to as int;
        let opp = self.spec_active();
        let mover = opp.spec_opposite();
        let restored = match captured {
            Some(cp) => Some((cp, opp)),
            None => None,
        };
        match mv.move_type {
            MoveType::Regular => if sq == from {
                Some((self.type_at(to).unwrap(), mover))
            } else if sq == to {
                restored
            } else {
                self.at(sq)
            },
            MoveType::Promotion(_) => if sq == from {
                Some((PieceType::Pawn, mover))
            } else if sq == to {
                restored
            } else {
                self.at(sq)
            },
            MoveType::EnPassant(t) => if sq == from {
                Some((PieceType::Pawn, mover))
            } else if sq == t as int {
                Some((PieceType::Pawn, opp))
            } else if sq == to {
                None
            } else {
                self.at(sq)
            },
            MoveType::Castling(kingside) => {
                let (rook_from, rook_to) = castling_rook_squares(from, kingside);
                if sq == from {
                    Some((PieceType::King, mover))
                } else if sq == rook_from {
                    Some((PieceType::Rook, mover))
                } else if sq == to || sq == rook_to {
                    None
                } else {
                    self.at(sq)
                }
            },
        }
    }

    /// `after` is `before` with its last move taken back. The restored
    /// position's hash has the side-to-move key toggled once more.
    pub open spec fn unmade(before: Board, after: Board) -> bool {
        let n = before.metas().len();
        &&& after.wf()
        &&& forall|sq: int| is_square(sq) ==> #[trigger] after.at(sq) == before.undo_at(sq)
        &&& after.spec_active() == before.spec_active().spec_opposite()
        &&& after.spec_halfmove() == before.spec_halfmove() - 1
        &&& after.metas() == before.metas().subrange(0, n - 2).push(
            BoardMetadata { zobrist: before.metas()[n - 2].zobrist ^ zobrist::spec_color(), ..before.metas()[n - 2] },
        )
        &&& after.history() == before.history().drop_last()
    }

    /// The side to move is white after an even number of halfmoves and
    /// black after an odd one.
    pub open spec fn side_matches_count(&self) -> bool {
        (self.spec_active() == Color::White) == (self.spec_halfmove() % 2 == 0)
    }

    /// A valid board has its side to move in step with the halfmoves.
    pub proof fn lemma_valid_side(&self)
        requires
            self.valid(),
        ensures
            self.side_matches_count(),
    {
    }

    /// Making a move and taking one back keep the side to move in step with
    /// the halfmoves.
    pub proof fn lemma_side_kept(before: Board, mv: Move, after: Board)
        requires
            before.side_matches_count(),
            Board::made(before, mv, after) || Board::unmade(before, after),
        ensures
            after.side_matches_count(),
    {
    }

    fn set_rule50(&mut self, value: u32)
        requires
            old(self).metas().len() > 0,
        ensures
            final(self).metas() == old(self).metas().update(
                old(self).metas().len() - 1,
                BoardMetadata { rule50: value, ..old(self).meta() },
            ),
            final(self).history() == old(self).history(),
            final(self).spec_active() == old(self).spec_active(),
            final(self).spec_halfmove() == old(self).spec_halfmove(),
            forall|p: int| #[trigger] final(self).type_bb(p) == old(self).type_bb(p),
            forall|c: int| #[trigger] final(self).color_bb(c) == old(self).color_bb(c),
    {
        let mut m = self.current_meta();
        m.rule50 = value;
        self.set_meta(m);
    }

    /// The metadata that a move starts from: the current one with the
    /// fifty-move counter advanced, no en passant square, and the side to
    /// move toggled in the hash.
    pub open spec fn begin_meta(&self) -> BoardMetadata {
        BoardMetadata {
            rule50: (self.meta().rule50 + 1) as u32,
            en_passant_square: None,
            zobrist: self.meta().zobrist ^ zobrist::spec_color(),
            ..self.meta()
        }
    }

    /// `mid` is `b0` with a move begun: counters advanced and the side to move
    /// passed, no piece moved yet.
    pub open spec fn begun(b0: Board, mid: Board) -> bool {
        &&& mid.placement_ok()
        &&& forall|sq: int| #[trigger] mid.at(sq) == b0.at(sq)
        &&& mid.spec_active() == b0.spec_active().spec_opposite()
        &&& mid.spec_halfmove() == b0.spec_halfmove() + 1
        &&& mid.metas() == b0.metas().push(b0.begin_meta())
        &&& mid.history() == b0.history()
    }

    /// The part of a move that ends with pieces moved and metadata final.
    pub open spec fn finished(b0: Board, mv: Move, after: Board) -> bool {
        &&& after.placement_ok()
        &&& forall|sq: int| is_square(sq) ==> #[trigger] after.at(sq) == b0.after_at(mv, sq)
        &&& after.spec_active() == b0.spec_active().spec_opposite()
        &&& after.spec_halfmove() == b0.spec_halfmove() + 1
        &&& after.metas() == b0.metas().push(b0.spec_make_meta(mv))
        &&& after.history() == b0.history()
    }

    fn begin_move(&mut self)
        requires
            old(self).wf(),
            old(self).spec_halfmove() < u32::MAX,
        ensures
            Board::begun(*old(self), *final(self)),
    {
        let ghost b0 = *self;
        self.halfmove_number = self.halfmove_number + 1;
        let m = self.current_meta();
        self.metadata.push(m);
        let mut m1 = self.current_meta();
        proof {
            assert(b0.metas()[b0.metas().len() - 1].rule50 + 0 <= b0.spec_halfmove());
        }
        m1.rule50 = m1.rule50 + 1;
        m1.en_passant_square = None;
        self.set_meta(m1);
        self.flip_color();
        proof {
            self.lemma_same_bitboards(&b0);
            assert(self.metas() =~= b0.metas().push(b0.begin_meta()));
        }
    }

    #[verifier::rlimit(40)]
    fn make_regular(&mut self, mv: Move, Ghost(b0): Ghost<Board>) -> (r: Option<PieceType>)
        requires
            b0.wf(),
            b0.applicable(mv),
            mv.move_type == MoveType::Regular,
            Board::begun(b0, *old(self)),
        ensures
            Board::finished(b0, mv, *final(self)),
            r == b0.spec_captured(mv),
    {
        let source = mv.from as usize;
        let destination = mv.to as usize;
        let opponent_color = self.active_color();
        let friendly_color = opponent_color.opposite();
        let ghost b1 = *self;
        let moving_piece = self.piece_at(source).unwrap().0;
        self.revoke_castling_rights_for_piece(moving_piece, source);
        proof {
            self.lemma_same_bitboards(&b1);
        }
        let captured_piece = match self.piece_at(destination) {
            Some((piece_type, _)) => Some(piece_type),
            None => None,
        };
        if moving_piece == PieceType::Pawn {
            self.set_rule50(0);
            let diff = if source > destination {
                source - destination
            } else {
                destination - source
            };
            if diff == 16 {
                self.put_en_passant((source + destination) / 2);
            }
        }
        proof {
            self.lemma_same_bitboards(&b1);
        }
        if let Some(captured_piece) = captured_piece {
            self.set_rule50(0);
            proof {
                self.lemma_same_bitboards(&b1);
            }
            self.remove_piece(captured_piece, opponent_color, destination);
            let ghost b3 = *self;
            self.revoke_castling_rights_for_piece(captured_piece, destination);
            proof {
                self.lemma_same_bitboards(&b3);
            }
        }
        self.remove_piece(moving_piece, friendly_color, source);
        self.put_piece(moving_piece, friendly_color, destination);
        proof {
            reveal(Board::spec_make_meta);
            assert(self.metas() =~= b0.metas().push(b0.spec_make_meta(mv)));
        }
        captured_piece
    }

    #[verifier::rlimit(40)]
    fn make_promotion(&mut self, mv: Move, promoted_to: PieceType, Ghost(b0): Ghost<Board>) -> (r: Option<PieceType>)
        requires
            b0.wf(),
            b0.applicable(mv),
            mv.move_type == MoveType::Promotion(promoted_to),
            Board::begun(b0, *old(self)),
        ensures
            Board::finished(b0, mv, *final(self)),
            r == b0.spec_captured(mv),
    {
        let source = mv.from as usize;
        let destination = mv.to as usize;
        let opponent_color = self.active_color();
        let friendly_color = opponent_color.opposite();
        let ghost b1 = *self;
        self.set_rule50(0);
        proof {
            self.lemma_same_bitboards(&b1);
        }
        let captured_piece = match self.piece_at(destination) {
            Some((piece_type, _)) => Some(piece_type),
            None => None,
        };
        if let Some(captured_piece) = captured_piece {
            self.remove_piece(captured_piece, opponent_color, destination);
            let ghost b3 = *self;
            self.revoke_castling_rights_for_piece(captured_piece, destination);
            proof {
                self.lemma_same_bitboards(&b3);
            }
        }
        self.remove_piece(PieceType::Pawn, friendly_color, source);
        self.put_piece(promoted_to, friendly_color, destination);
        proof {
            reveal(Board::spec_make_meta);
            assert(self.metas() =~= b0.metas().push(b0.spec_make_meta(mv)));
        }
        captured_piece
    }

    #[verifier::rlimit(40)]
    fn make_en_passant(&mut self, mv: Move, target: u8, Ghost(b0): Ghost<Board>)
        requires
            b0.wf(),
            b0.applicable(mv),
            mv.move_type == MoveType::EnPassant(target),
            Board::begun(b0, *old(self)),
        ensures
            Board::finished(b0, mv, *final(self)),
    {
        let source = mv.from as usize;
        let destination = mv.to as usize;
        let opponent_color = self.active_color();
        let friendly_color = opponent_color.opposite();
        let ghost b1 = *self;
        self.set_rule50(0);
        proof {
            self.lemma_same_bitboards(&b1);
        }
        self.remove_piece(PieceType::Pawn, opponent_color, target as usize);
        self.remove_piece(PieceType::Pawn, friendly_color, source);
        self.put_piece(PieceType::Pawn, friendly_color, destination);
        proof {
            reveal(Board::spec_make_meta);
            assert(self.metas() =~= b0.metas().push(b0.spec_make_meta(mv)));
        }
    }

    #[verifier::rlimit(40)]
    fn make_castling(&mut self, mv: Move, kingside: bool, Ghost(b0): Ghost<Board>)
        requires
            b0.wf(),
            b0.applicable(mv),
            mv.move_type == MoveType::Castling(kingside),
            Board::begun(b0, *old(self)),
        ensures
            Board::finished(b0, mv, *final(self)),
    {
        let source = mv.from as usize;
        let destination = mv.to as usize;
        let opponent_color = self.active_color();
        let friendly_color = opponent_color.opposite();
        let ghost b1 = *self;
        self.set_kingside_castling(friendly_color, false);
        self.set_queenside_castling(friendly_color, false);
        proof {
            self.lemma_same_bitboards(&b1);
        }
        let (rook_source, rook_destination) = if kingside {
            (source + 3, source + 1)
        } else {
            (source - 4, source - 1)
        };
        self.remove_piece(PieceType::Rook, friendly_color, rook_source);
        self.put_piece(PieceType::Rook, friendly_color, rook_destination);
        self.remove_piece(PieceType::King, friendly_color, source);
        self.put_piece(PieceType::King, friendly_color, destination);
        proof {
            reveal(Board::spec_make_meta);
            assert(self.metas() =~= b0.metas().push(b0.spec_make_meta(mv)));
        }
    }

    /// Plays a move without checking that it is legal.
    pub(crate) fn make_move_unchecked(&mut self, mv: Move) -> (r: Option<PieceType>)
        requires
            old(self).wf(),
            old(self).applicable(mv),
            old(self).spec_halfmove() < u32::MAX,
        ensures
            Board::made(*old(self), mv, *final(self)),
            final(self).undoable(),
            r == old(self).spec_captured(mv),
    {
        let ghost b0 = *self;
        self.begin_move();
        let captured_piece = match mv.move_type {
            MoveType::Regular => self.make_regular(mv, Ghost(b0)),
            MoveType::Promotion(promoted_to) => self.make_promotion(mv, promoted_to, Ghost(b0)),
            MoveType::EnPassant(target) => {
                self.make_en_passant(mv, target, Ghost(b0));
                Some(PieceType::Pawn)
            },
            MoveType::Castling(kingside) => {
                self.make_castling(mv, kingside, Ghost(b0));
                None
            },
        };
        let ghost b2 = *self;
        self.moves.push((mv, captured_piece));
        proof {
            assert(self.pieces == b2.pieces);
            assert(self.colors == b2.colors);
            self.lemma_same_bitboards(&b2);
            b0.lemma_make_meta_bounds(mv);
            assert forall|i: int|
                0 <= i < self.metas().len() implies #[trigger] self.metas()[i].rule50 + (self.metas().len() - 1 - i)
                    <= self.spec_halfmove() by {
                if i < b0.metas().len() {
                    assert(b0.metas()[i].rule50 + (b0.metas().len() - 1 - i) <= b0.spec_halfmove());
                }
            }
            assert forall|i: int|
                0 <= i < self.metas().len() implies ((#[trigger] self.metas()[i]).en_passant_square matches Some(e)
                    ==> e < 64) by {
                if i < b0.metas().len() {
                    assert(b0.metas()[i].en_passant_square matches Some(e) ==> e < 64);
                }
            }
            assert(self.placement_ok());
            assert(self.metas().len() == self.history().len() + 1);
            assert(self.history().len() <= self.spec_halfmove());
            assert(self.wf());
            assert(self.history() == b0.history().push((mv, b0.spec_captured(mv))));
            assert(self.metas() == b0.metas().push(b0.spec_make_meta(mv)));
            Board::lemma_made_undoable(b0, mv, *self);
        }
        captured_piece
    }

    /// The metadata after a move keeps the counters in range.
    proof fn lemma_make_meta_bounds(&self, mv: Move)
        requires
            self.wf(),
            self.applicable(mv),
        ensures
            self.spec_make_meta(mv).rule50 <= self.meta().rule50 + 1,
            self.spec_make_meta(mv).en_passant_square matches Some(e) ==> e < 64,
    {
        reveal(Board::spec_make_meta);
        assert(self.metas()[self.metas().len() - 1].rule50 + 0 <= self.spec_halfmove());
    }

    /// A move just made can be taken back.
    proof fn lemma_made_undoable(b0: Board, mv: Move, b1: Board)
        requires
            b0.wf(),
            b0.applicable(mv),
            Board::made(b0, mv, b1),
        ensures
            b1.undoable(),
    {
        assert(b1.history().last() == (mv, b0.spec_captured(mv)));
        let from = mv.from as int;
        let to = mv.to as int;
        assert(b1.at(from) == b0.after_at(mv, from));
        assert(b1.at(to) == b0.after_at(mv, to));
        match mv.move_type {
            MoveType::EnPassant(t) => {
                assert(b1.at(t as int) == b0.after_at(mv, t as int));
            },
            MoveType::Castling(kingside) => {
                let (rook_from, rook_to) = castling_rook_squares(from, kingside);
                assert(b1.at(rook_from) == b0.after_at(mv, rook_from));
                assert(b1.at(rook_to) == b0.after_at(mv, rook_to));
            },
            _ => {},
        }
    }

    /// Takes back the last move made, returning it.
    ///
    /// The restored position's hash has the side-to-move key toggled once
    /// more: the move's own toggle left with its metadata, and the restored
    /// metadata is toggled again.
    #[verifier::rlimit(40)]
    pub fn unmake_move(&mut self) -> (r: Move)
        requires
            old(self).wf(),
            old(self).undoable(),
        ensures
            Board::unmade(*old(self), *final(self)),
            r == old(self).history().last().0,
    {
        let ghost b0 = *self;
        let (mv, captured_piece) = self.moves.pop().unwrap();
        let source = mv.from as usize;
        let destination = mv.to as usize;
        let opponent_color = self.active_color();
        let friendly_color = opponent_color.opposite();
        self.metadata.pop();
        self.halfmove_number = self.halfmove_number - 1;
        let ghost b1 = *self;
        self.flip_color();
        proof {
            assert(b1.pieces == b0.pieces);
            assert(b1.colors == b0.colors);
            b1.lemma_same_bitboards(&b0);
            self.lemma_same_bitboards(&b1);
        }
        match mv.move_type {
            MoveType::Regular => {
                let moving_piece = self.piece_at(destination).unwrap().0;
                self.remove_piece_no_zobrist(moving_piece, friendly_color, destination);
                self.put_piece_no_zobrist(moving_piece, friendly_color, source);
                if let Some(captured_piece) = captured_piece {
                    self.put_piece_no_zobrist(captured_piece, opponent_color, destination);
                }
            },
            MoveType::Promotion(promoted_to) => {
                self.remove_piece_no_zobrist(promoted_to, friendly_color, destination);
                self.put_piece_no_zobrist(PieceType::Pawn, friendly_color, source);
                if let Some(captured_piece) = captured_piece {
                    self.put_piece_no_zobrist(captured_piece, opponent_color, destination);
                }
            },
            MoveType::EnPassant(target) => {
                self.remove_piece_no_zobrist(PieceType::Pawn, friendly_color, destination);
                self.put_piece_no_zobrist(PieceType::Pawn, friendly_color, source);
                self.put_piece_no_zobrist(PieceType::Pawn, opponent_color, target as usize);
            },
            MoveType::Castling(kingside) => {
                let (rook_source, rook_destination) = if kingside {
                    (source + 3, source + 1)
                } else {
                    (source - 4, source - 1)
                };
                self.remove_piece_no_zobrist(PieceType::Rook, friendly_color, rook_destination);
                self.put_piece_no_zobrist(PieceType::Rook, friendly_color, rook_source);
                self.remove_piece_no_zobrist(PieceType::King, friendly_color, destination);
                self.put_piece_no_zobrist(PieceType::King, friendly_color, source);
            },
        }
        proof {
            let n = b0.metas().len();
            assert(self.metas() =~= b0.metas().subrange(0, n - 2).push(
                BoardMetadata { zobrist: b0.metas()[n - 2].zobrist ^ zobrist::spec_color(), ..b0.metas()[n - 2] },
            ));
            assert(self.history() =~= b0.history().drop_last());
            assert forall|i: int|
                0 <= i < self.metas().len() implies #[trigger] self.metas()[i].rule50 + (self.metas().len() - 1 - i)
                    <= self.spec_halfmove() by {
                assert(b0.metas()[i].rule50 + (b0.metas().len() - 1 - i) <= b0.spec_halfmove());
            }
            assert forall|i: int|
                0 <= i < self.metas().len() implies ((#[trigger] self.metas()[i]).en_passant_square matches Some(e)
                    ==> e < 64) by {
                assert(b0.metas()[i].en_passant_square matches Some(e) ==> e < 64);
            }
        }
        mv
    }

    /// An en passant square is backed by the pawn that just passed it: the
    /// square is on the 6th rank with a black pawn in front of it when white
    /// is to move (on the 3rd rank with a white pawn when black is), and it is
    /// empty.
    pub open spec fn en_passant_ok(&self, e: int) -> bool {
        &&& self.at(e) is None
        &&& if self.spec_active() == Color::White {
            &&& e / 8 == 5
            &&& self.at(e - 8) == Some((PieceType::Pawn, Color::Black))
            &&& self.at(e + 8) is None
        } else {
            &&& e / 8 == 2
            &&& self.at(e + 8) == Some((PieceType::Pawn, Color::White))
            &&& self.at(e - 8) is None
        }
    }

    /// A well-formed board whose castling rights are backed by kings and
    /// rooks on their home squares, whose en passant square is backed by the
    /// pawn that just passed it, and whose side to move is white after an
    /// even number of halfmoves and black after an odd one.
    pub open spec fn valid(&self) -> bool {
        &&& self.wf()
        &&& forall|k: bool, c: Color|
            #[trigger] self.meta().castling_rights.spec_has(k, c) ==> self.at(king_home(c)) == Some(
                (PieceType::King, c),
            ) && self.at(rook_home(k, c)) == Some((PieceType::Rook, c))
        &&& (self.meta().en_passant_square matches Some(e) ==> self.en_passant_ok(e as int))
        &&& self.spec_active() == if self.spec_halfmove() % 2 == 0 {
            Color::White
        } else {
            Color::Black
        }
    }

    /// Adding a piece to an empty square adds it to one piece bitboard.
    proof fn lemma_put_word(b0: Board, b1: Board, sq: int, pt: PieceType, c: Color, qp: PieceType, qc: Color)
        requires
            b0.placement_ok(),
            b1.placement_ok(),
            is_square(sq),
            b0.at(sq) is None,
            forall|t: int| #[trigger] b1.at(t) == if t == sq { Some((pt, c)) } else { b0.at(t) },
        ensures
            b1.spec_pieces(qp, qc).0 == if qp == pt && qc == c {
                b0.spec_pieces(qp, qc).0 | (1u64 << (sq as u64))
            } else {
                b0.spec_pieces(qp, qc).0
            },
    {
        let x = b0.spec_pieces(qp, qc).0;
        let y = b1.spec_pieces(qp, qc).0;
        let z = if qp == pt && qc == c { x | (1u64 << (sq as u64)) } else { x };
        assert forall|i: u64| i < 64 implies bit(y, i) == bit(z, i) by {
            b0.lemma_spec_pieces(qp, qc, i as int);
            b1.lemma_spec_pieces(qp, qc, i as int);
            lemma_bit_single(sq as u64, i);
            lemma_bit_ops(x, 1u64 << (sq as u64), i);
        }
        lemma_bits_ext(y, z);
    }

    /// Sets up a board from a list of pieces, the castling rights, the en
    /// passant square and the counters. The side to move is white on even
    /// halfmove numbers.
    #[verifier::rlimit(60)]
    pub fn new(
        pieces: &[(usize, PieceType, Color)],
        castling_rights: CastlingRights,
        en_passant_square: Option<u8>,
        halfmove_number: u32,
        rule50: u32,
    ) -> (r: Result<Self, String>)
        requires
            list_valid(pieces@),
            en_passant_square matches Some(e) ==> e < 64,
        ensures
            match r {
                Ok(b) => {
                    &&& new_error(pieces@, castling_rights, en_passant_square, halfmove_number, rule50) is None
                    &&& b.valid()
                    &&& forall|sq: int| is_square(sq) ==> #[trigger] b.at(sq) == list_at(pieces@, sq)
                    &&& b.spec_active() == if halfmove_number % 2 == 0 { Color::White } else { Color::Black }
                    &&& b.spec_halfmove() == halfmove_number
                    &&& b.history().len() == 0
                    &&& b.metas() == seq![
                        BoardMetadata {
                            castling_rights,
                            en_passant_square,
                            rule50,
                            zobrist: new_hash(pieces@, castling_rights, en_passant_square, halfmove_number),
                        },
                    ]
                },
                Err(e) => new_error(pieces@, castling_rights, en_passant_square, halfmove_number, rule50)
                    == Some(e@),
            },
    {
        let active_color = if halfmove_number % 2 == 0 {
            Color::White
        } else {
            Color::Black
        };
        let mut board = Board {
            colors: [Bitboard(0), Bitboard(0)],
            pieces: [Bitboard(0), Bitboard(0), Bitboard(0), Bitboard(0), Bitboard(0), Bitboard(0)],
            halfmove_number,
            active_color,
            metadata: vec![BoardMetadata { castling_rights, en_passant_square, rule50, zobrist: 0 }],
            moves: Vec::new(),
        };
        proof {
            assert(board.pieces@ == seq![Bitboard(0), Bitboard(0), Bitboard(0), Bitboard(0), Bitboard(0), Bitboard(0)]);
            assert(board.colors@ == seq![Bitboard(0), Bitboard(0)]);
            assert forall|p: int| 0 <= p < 6 implies #[trigger] board.type_bb(p).0 == 0 by {
                assert(board.pieces@[p] == Bitboard(0));
            }
            assert(board.color_bb(0).0 == 0 && board.color_bb(1).0 == 0) by {
                assert(board.colors@[0] == Bitboard(0));
                assert(board.colors@[1] == Bitboard(0));
            }
            assert forall|sq: int| #[trigger] board.at(sq) == list_at(pieces@.subrange(0, 0), sq) by {
                if is_square(sq) {
                    lemma_bit_ops(0, 0, sq as u64);
                }
                assert(board.type_bb(0).0 == 0 && board.type_bb(1).0 == 0 && board.type_bb(2).0 == 0);
                assert(board.type_bb(3).0 == 0 && board.type_bb(4).0 == 0 && board.type_bb(5).0 == 0);
            }
            assert forall|sq: int| is_square(sq) implies #[trigger] board.square_consistent(sq) by {
                lemma_bit_ops(0, 0, sq as u64);
                assert(board.type_bb(0).0 == 0 && board.type_bb(1).0 == 0 && board.type_bb(2).0 == 0);
                assert(board.type_bb(3).0 == 0 && board.type_bb(4).0 == 0 && board.type_bb(5).0 == 0);
            }
            assert(0u64 & 0u64 == 0u64) by (bit_vector);
            assert(board.type_bb(5).0 == 0);
        }
        let mut i: usize = 0;
        while i < pieces.len()
            invariant
                i <= pieces@.len(),
                list_valid(pieces@),
                board.placement_ok(),
                forall|sq: int| #[trigger] board.at(sq) == list_at(pieces@.subrange(0, i as int), sq),
                board.metas() == seq![
                    BoardMetadata {
                        castling_rights,
                        en_passant_square,
                        rule50,
                        zobrist: list_hash(pieces@.subrange(0, i as int)),
                    },
                ],
                board.history().len() == 0,
                board.spec_active() == active_color,
                board.spec_halfmove() == halfmove_number,
                popcount(board.spec_pieces(PieceType::King, Color::White).0) == list_count(
                    pieces@.subrange(0, i as int),
                    PieceType::King,
                    Color::White,
                ),
                popcount(board.spec_pieces(PieceType::King, Color::Black).0) == list_count(
                    pieces@.subrange(0, i as int),
                    PieceType::King,
                    Color::Black,
                ),
            decreases pieces@.len() - i,
        {
            let (square, piece_type, color) = pieces[i];
            let ghost b0 = board;
            let ghost prefix = pieces@.subrange(0, i as int);
            let ghost next = pieces@.subrange(0, i + 1);
            proof {
                assert(next.drop_last() =~= prefix);
                assert(next.last() == pieces@[i as int]);
                assert(pieces@[i as int].0 < 64);
                lemma_list_at_absent(pieces@, i as int);
            }
            board.put_piece(piece_type, color, square);
            proof {
                assert forall|sq: int| #[trigger] board.at(sq) == list_at(next, sq) by {
                }
                assert(board.metas() =~= seq![
                    BoardMetadata { castling_rights, en_passant_square, rule50, zobrist: list_hash(next) },
                ]);
                Board::lemma_put_word(b0, board, square as int, piece_type, color, PieceType::King, Color::White);
                Board::lemma_put_word(b0, board, square as int, piece_type, color, PieceType::King, Color::Black);
                if piece_type == PieceType::King && color == Color::White {
                    lemma_spec_pieces_absent(b0, square as int, PieceType::King, Color::White);
                    lemma_popcount_set(b0.spec_pieces(PieceType::King, Color::White).0, square as u64);
                }
                if piece_type == PieceType::King && color == Color::Black {
                    lemma_spec_pieces_absent(b0, square as int, PieceType::King, Color::Black);
                    lemma_popcount_set(b0.spec_pieces(PieceType::King, Color::Black).0, square as u64);
                }
            }
            i += 1;
        }
        proof {
            assert(pieces@.subrange(0, pieces@.len() as int) =~= pieces@);
        }
        let ghost placed = board;
        if active_color == Color::Black {
            board.toggle_zobrist(zobrist::color());
        }
        if castling_rights.kingside(Color::White) {
            board.toggle_zobrist(zobrist::kingside_castling(Color::White));
        }
        if castling_rights.queenside(Color::White) {
            board.toggle_zobrist(zobrist::queenside_castling(Color::White));
        }
        if castling_rights.kingside(Color::Black) {
            board.toggle_zobrist(zobrist::kingside_castling(Color::Black));
        }
        if castling_rights.queenside(Color::Black) {
            board.toggle_zobrist(zobrist::queenside_castling(Color::Black));
        }
        if let Some(ep_square) = en_passant_square {
            board.toggle_zobrist(zobrist::en_passant(ep_square as usize));
        }
        proof {
            board.lemma_same_bitboards(&placed);
        }
        // validate board

        // one king of each color
        if board.kings(Color::White).count() != 1 {
            return Err(String::from_str("There must be exactly one white king."));
        }
        if board.kings(Color::Black).count() != 1 {
            return Err(String::from_str("There must be exactly one black king."));
        }
        proof {
            lemma_popcount_zero(board.spec_pieces(PieceType::King, Color::White).0);
            lemma_popcount_zero(board.spec_pieces(PieceType::King, Color::Black).0);
        }
        // castling rights are backed by the king and rook on their home squares
        if castling_rights.kingside(Color::White) && (!(board.king_index(Color::White) == 4)
            || !board.rooks(Color::White).contains(7)) {
            proof {
                board.lemma_backed(pieces@, true, Color::White);
            }
            return Err(
                String::from_str(
                    "Invalid white kingside castling right. The king and rook do not reside on thier original squares",
                ),
            );
        }
        proof {
            board.lemma_backed(pieces@, true, Color::White);
        }
        if castling_rights.queenside(Color::White) && (!(board.king_index(Color::White) == 4)
            || !board.rooks(Color::White).contains(0)) {
            proof {
                board.lemma_backed(pieces@, false, Color::White);
            }
            return Err(
                String::from_str(
                    "Invalid white queenside castling right. The king and rook do not reside on thier original squares",
                ),
            );
        }
        proof {
            board.lemma_backed(pieces@, false, Color::White);
        }
        if castling_rights.kingside(Color::Black) && (!(board.king_index(Color::Black) == 60)
            || !board.rooks(Color::Black).contains(63)) {
            proof {
                board.lemma_backed(pieces@, true, Color::Black);
            }
            return Err(
                String::from_str(
                    "Invalid black kingside castling right. The king and rook do not reside on thier original squares",
                ),
            );
        }
        proof {
            board.lemma_backed(pieces@, true, Color::Black);
        }
        if castling_rights.queenside(Color::Black) && (!(board.king_index(Color::Black) == 60)
            || !board.rooks(Color::Black).contains(56)) {
            proof {
                board.lemma_backed(pieces@, false, Color::Black);
            }
            return Err(
                String::from_str(
                    "Invalid black queenside castling right. The king and rook do not reside on thier original squares",
                ),
            );
        }
        proof {
            board.lemma_backed(pieces@, false, Color::Black);
        }
        // en passant square is valid
        if let Some(ep_square) = en_passant_square {
            let ep_square = ep_square as usize;
            board.toggle_zobrist(zobrist::en_passant(ep_square));
            proof {
                board.lemma_same_bitboards(&placed);
                lemma_rank_file_bits(ep_square);
            }
            let rank = ep_square >> 3;
            let (source, destination, color) = if rank == 2 {
                let source = 1 * 8 + (ep_square & 0b111);
                let destination = 3 * 8 + (ep_square & 0b111);
                (source, destination, Color::Black)
            } else if rank == 5 {
                let source = 6 * 8 + (ep_square & 0b111);
                let destination = 4 * 8 + (ep_square & 0b111);
                (source, destination, Color::White)
            } else {
                return Err(String::from_str("En passant square must be on either the 3rd or 6th ranks."));
            };
            proof {
                board.lemma_occupied(source as int);
                board.lemma_occupied(ep_square as int);
                board.lemma_spec_pieces(PieceType::Pawn, color.spec_opposite(), destination as int);
            }
            if active_color != color || board.all_pieces().contains(source) || board.all_pieces().contains(
                ep_square,
            ) || !board.pawns(color.opposite()).contains(destination) {
                return Err(
                    String::from_str(
                        "Invalid en passant square. A pawn double jump could not have occured on the last move",
                    ),
                );
            }
        }
        if rule50 > halfmove_number {
            return Err(String::from_str("rule50 cannot be larger than the halfmove number."));
        }
        proof {
            board.lemma_same_bitboards(&placed);
            assert(board.metas().len() == 1);
            assert(board.metas()[0].rule50 + 0 <= board.spec_halfmove());
            assert(board.metas() =~= seq![
                BoardMetadata {
                    castling_rights,
                    en_passant_square,
                    rule50,
                    zobrist: new_hash(pieces@, castling_rights, en_passant_square, halfmove_number),
                },
            ]);
        }
        Ok(board)
    }

    /// A square holds a piece exactly when a color bitboard holds it.
    proof fn lemma_occupied(&self, sq: int)
        requires
            self.placement_ok(),
            is_square(sq),
        ensures
            (self.color_bb(0)@.union(self.color_bb(1)@)).contains(sq) == (self.at(sq) is Some),
    {
        assert(self.square_consistent(sq));
    }

    /// With exactly one king of a color, the lowest square of its king
    /// bitboard is the home square exactly when the king stands there.
    proof fn lemma_backed(&self, pieces: Seq<(usize, PieceType, Color)>, kingside: bool, color: Color)
        requires
            self.placement_ok(),
            forall|sq: int| is_square(sq) ==> #[trigger] self.at(sq) == list_at(pieces, sq),
            popcount(self.spec_pieces(PieceType::King, color).0) == 1,
        ensures
            self.spec_pieces(PieceType::King, color).0 != 0,
            ({
                let x = self.spec_pieces(PieceType::King, color).0;
                forall|i: int|
                    0 <= i < 64 && self.spec_pieces(PieceType::King, color).has(i) ==> (i == king_home(color)
                        <==> list_at(pieces, king_home(color)) == Some((PieceType::King, color)))
            }),
            self.spec_pieces(PieceType::Rook, color).has(rook_home(kingside, color)) == (list_at(
                pieces,
                rook_home(kingside, color),
            ) == Some((PieceType::Rook, color))),
    {
        lemma_popcount_zero(self.spec_pieces(PieceType::King, color).0);
        let x = self.spec_pieces(PieceType::King, color).0;
        let h = king_home(color);
        self.lemma_spec_pieces(PieceType::King, color, h);
        self.lemma_spec_pieces(PieceType::Rook, color, rook_home(kingside, color));
        assert forall|i: int|
            0 <= i < 64 && self.spec_pieces(PieceType::King, color).has(i) implies (i == h <==> list_at(pieces, h)
                == Some((PieceType::King, color))) by {
            if list_at(pieces, h) == Some((PieceType::King, color)) {
                lemma_popcount_one(x, i as u64, h as u64);
            }
        }
    }

    /// The number of positions, among the last ones that the fifty-move
    /// counter reaches back to (the current one included), whose hash equals
    /// the current hash.
    pub open spec fn repetitions(&self) -> nat {
        let n = self.metas().len();
        let h = if self.meta().rule50 + 1 < n { self.meta().rule50 + 1 } else { n as int };
        count_hash(self.metas().subrange(n - h, n as int), self.meta().zobrist)
    }

    /// Whether the current hash occurs at least three times among the
    /// positions since the last pawn move or capture.
    pub fn is_threefold_repetition(&self) -> (r: bool)
        requires
            self.wf(),
        ensures
            r == (self.repetitions() >= 3),
    {
        let current_zobrist = self.zobrist();
        let len = self.metadata.len();
        let window = self.rule50() as u64 + 1;
        let history_length = if window < len as u64 {
            window as usize
        } else {
            len
        };
        let mut count: usize = 0;
        let mut k: usize = 0;
        while k < history_length
            invariant
                history_length <= len,
                len == self.metas().len(),
                current_zobrist == self.meta().zobrist,
                k <= history_length,
                count == count_hash(self.metas().subrange(len - k, len as int), current_zobrist),
                count <= k,
            decreases history_length - k,
        {
            let m = self.metadata[len - 1 - k];
            proof {
                let next = self.metas().subrange(len - (k + 1), len as int);
                assert(next.drop_last() =~= self.metas().subrange(len - (k + 1), len - 1));
                lemma_count_hash_front(self.metas(), len - (k + 1), len as int, current_zobrist);
            }
            if m.zobrist == current_zobrist {
                count += 1;
            }
            k += 1;
        }
        count >= 3
    }

    /// The square of the king of a color: the lowest square of its king
    /// bitboard.
    pub fn king_index(&self, color: Color) -> (r: usize)
        requires
            self.spec_pieces(PieceType::King, color).0 != 0,
        ensures
            r < 64,
            self.spec_pieces(PieceType::King, color).has(r as int),
            forall|j: int| 0 <= j < r ==> !self.spec_pieces(PieceType::King, color).has(j),
            self.placement_ok() && self.one_king(color) ==> {
                &&& r as int == self.king_sq(color)
                &&& self.at(r as int) == Some((PieceType::King, color))
                &&& self.spec_pieces(PieceType::King, color).0 == 1u64 << r
            },
    {
        let r = self.kings(color).lsb_index().unwrap();
        proof {
            if self.placement_ok() && self.one_king(color) {
                self.lemma_spec_pieces(PieceType::King, color, r as int);
                self.lemma_king_sq(color);
                let x = self.spec_pieces(PieceType::King, color).0;
                assert forall|i: u64| i < 64 implies bit(x, i) == bit(1u64 << r, i) by {
                    self.lemma_spec_pieces(PieceType::King, color, i as int);
                    lemma_bit_single(r as u64, i);
                }
                lemma_bits_ext(x, 1u64 << r);
            }
        }
        r
    }

    /// The piece bitboards split the board: no square is both white and
    /// black, the pieces of a color are the union of its six piece
    /// bitboards, and no two of them share a square.
    pub proof fn lemma_bitboards_partition(&self)
        requires
            self.placement_ok(),
        ensures
            self.color_bb(0).0 & self.color_bb(1).0 == 0,
            forall|c: Color| #[trigger] self.color_bb(c.spec_index()).0 == self.spec_pieces(PieceType::Pawn, c).0
                | self.spec_pieces(PieceType::Knight, c).0 | self.spec_pieces(PieceType::Bishop, c).0
                | self.spec_pieces(PieceType::Rook, c).0 | self.spec_pieces(PieceType::Queen, c).0
                | self.spec_pieces(PieceType::King, c).0,
            forall|p: PieceType, q: PieceType, c: Color|
                p != q ==> #[trigger] self.spec_pieces(p, c).0 & #[trigger] self.spec_pieces(q, c).0 == 0,
    {
        broadcast use group_bit_lemmas;
        let w = self.color_bb(0).0;
        let b = self.color_bb(1).0;
        assert forall|i: u64| i < 64 implies bit(w & b, i) == bit(0u64, i) by {
            assert(self.square_consistent(i as int));
            lemma_bit_ops(w, b, i);
        }
        lemma_bits_ext(w & b, 0u64);
        assert forall|c: Color| #[trigger] self.color_bb(c.spec_index()).0 == self.spec_pieces(PieceType::Pawn, c).0
            | self.spec_pieces(PieceType::Knight, c).0 | self.spec_pieces(PieceType::Bishop, c).0
            | self.spec_pieces(PieceType::Rook, c).0 | self.spec_pieces(PieceType::Queen, c).0
            | self.spec_pieces(PieceType::King, c).0 by {
            let u = self.spec_pieces(PieceType::Pawn, c).0 | self.spec_pieces(PieceType::Knight, c).0
                | self.spec_pieces(PieceType::Bishop, c).0 | self.spec_pieces(PieceType::Rook, c).0
                | self.spec_pieces(PieceType::Queen, c).0 | self.spec_pieces(PieceType::King, c).0;
            assert forall|i: u64| i < 64 implies bit(self.color_bb(c.spec_index()).0, i) == bit(u, i) by {
                let k = i as int;
                assert(self.square_consistent(k));
                self.lemma_spec_pieces(PieceType::Pawn, c, k);
                self.lemma_spec_pieces(PieceType::Knight, c, k);
                self.lemma_spec_pieces(PieceType::Bishop, c, k);
                self.lemma_spec_pieces(PieceType::Rook, c, k);
                self.lemma_spec_pieces(PieceType::Queen, c, k);
                self.lemma_spec_pieces(PieceType::King, c, k);
                assert(self.color_bb(c.spec_index()).has(k) == bit(self.color_bb(c.spec_index()).0, i));
            }
            lemma_bits_ext(self.color_bb(c.spec_index()).0, u);
        }
        assert forall|p: PieceType, q: PieceType, c: Color|
            p != q implies #[trigger] self.spec_pieces(p, c).0 & #[trigger] self.spec_pieces(q, c).0 == 0 by {
            let x = self.spec_pieces(p, c).0;
            let y = self.spec_pieces(q, c).0;
            assert forall|i: u64| i < 64 implies bit(x & y, i) == bit(0u64, i) by {
                self.lemma_spec_pieces(p, c, i as int);
                self.lemma_spec_pieces(q, c, i as int);
                lemma_bit_ops(x, y, i);
            }
            lemma_bits_ext(x & y, 0u64);
        }
    }
}

} // verus!
