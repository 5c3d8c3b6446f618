use vstd::prelude::*;

verus! {

/// The two chess colors.
#[derive(Debug, Clone, Copy, PartialEq, Eq, Structural, Hash)]
pub enum Color {
    White,
    Black,
}

impl Color {
    /// The array index of the color: 0 for white, 1 for black.
    pub open spec fn spec_index(self) -> int {
        match self {
            Color::White => 0,
            Color::Black => 1,
        }
    }

    /// The color with the given array index.
    pub open spec fn from_index(i: int) -> Color {
        if i == 0 {
            Color::White
        } else {
            Color::Black
        }
    }

    /// The array index of the color: 0 for white, 1 for black.
    pub fn index(self) -> (r: usize)
        ensures
            r == self.spec_index(),
            r < 2,
    {
        match self {
            Color::White => 0,
            Color::Black => 1,
        }
    }

    pub open spec fn spec_opposite(self) -> Color {
        match self {
            Color::White => Color::Black,
            Color::Black => Color::White,
        }
    }

    pub fn opposite(self) -> (r: Color)
        ensures
            r == self.spec_opposite(),
            r != self,
    {
        match self {
            Color::White => Color::Black,
            Color::Black => Color::White,
        }
    }
}

/// The six piece types.
#[derive(Debug, Clone, Copy, PartialEq, Eq, Structural, Hash)]
pub enum PieceType {
    Pawn,
    Knight,
    Bishop,
    Rook,
    Queen,
    King,
}

impl PieceType {
    /// The array index of the piece type, in the order pawn, knight, bishop,
    /// rook, queen, king.
    pub open spec fn spec_index(self) -> int {
        match self {
            PieceType::Pawn => 0,
            PieceType::Knight => 1,
            PieceType::Bishop => 2,
            PieceType::Rook => 3,
            PieceType::Queen => 4,
            PieceType::King => 5,
        }
    }

    /// The piece type with the given array index.
    pub open spec fn from_index(i: int) -> PieceType {
        if i == 0 {
            PieceType::Pawn
        } else if i == 1 {
            PieceType::Knight
        } else if i == 2 {
            PieceType::Bishop
        } else if i == 3 {
            PieceType::Rook
        } else if i == 4 {
            PieceType::Queen
        } else {
            PieceType::King
        }
    }

    pub fn index(self) -> (r: usize)
        ensures
            r == self.spec_index(),
            r < 6,
            PieceType::from_index(r as int) == self,
    {
        match self {
            PieceType::Pawn => 0,
            PieceType::Knight => 1,
            PieceType::Bishop => 2,
            PieceType::Rook => 3,
            PieceType::Queen => 4,
            PieceType::King => 5,
        }
    }
}


#[derive(Debug, Clone, Copy, PartialEq, Eq, Structural, Hash)]
pub enum MoveType {
    Regular,
    /// Castling; `true` for kingside.
    Castling(bool),
    /// En passant; the square of the captured pawn.
    EnPassant(u8),
    /// Promotion to the given piece type.
    Promotion(PieceType),
}

#[derive(Debug, Clone, Copy, PartialEq, Eq, Structural, Hash)]
pub struct Move {
    pub from: u8,
    pub to: u8,
    pub move_type: MoveType,
}

/// The file letter of a square: 'a' for file 0.
pub open spec fn file_char(sq: int) -> char {
    ((97 + sq % 8) as u32) as char
}

/// The rank digit of a square: '1' for rank 0.
pub open spec fn rank_char(sq: int) -> char {
    ((49 + (sq / 8) % 256) as u32) as char
}

/// The algebraic name of a square, e.g. "e4".
pub open spec fn algebraic(sq: int) -> Seq<char> {
    seq![file_char(sq), rank_char(sq)]
}

/// The lowercase letter of a promotion piece in coordinate notation.
pub open spec fn promotion_letter(pt: PieceType) -> Option<char> {
    match pt {
        PieceType::Knight => Some('n'),
        PieceType::Bishop => Some('b'),
        PieceType::Rook => Some('r'),
        PieceType::Queen => Some('q'),
        _ => None,
    }
}

impl Move {
    /// The coordinate notation of the move, e.g. "e2e4" or "e7e8q";
    /// `None` for a promotion to a pawn or a king, which has no notation.
    pub open spec fn spec_coordinate(self) -> Option<Seq<char>> {
        match self.move_type {
            MoveType::Promotion(pt) => match promotion_letter(pt) {
                Some(c) => Some(algebraic(self.from as int) + algebraic(self.to as int) + seq![c]),
                None => None,
            },
            _ => Some(algebraic(self.from as int) + algebraic(self.to as int)),
        }
    }

    /// Renders the move in coordinate notation (the move's display form).
    /// Returns `None` for a promotion to a pawn or a king, which cannot be
    /// displayed.
    pub fn to_coordinate(&self) -> (r: Option<String>)
        ensures
            r is Some <==> self.spec_coordinate() is Some,
            r matches Some(s) ==> s@ == self.spec_coordinate().unwrap(),
    {
        let mut s = crate::utils::square_to_algebraic(self.from as usize);
        let to = crate::utils::square_to_algebraic(self.to as usize);
        s.append(to.as_str());
        if let MoveType::Promotion(piece_type) = self.move_type {
            let promotion = match piece_type {
                PieceType::Knight => 'n',
                PieceType::Bishop => 'b',
                PieceType::Rook => 'r',
                PieceType::Queen => 'q',
                PieceType::Pawn | PieceType::King => {
                    return None;
                },
            };
            crate::utils::push_char(&mut s, promotion);
        }
        Some(s)
    }
}

/// The castling rights of both colors, one flag each for the kingside and the
/// queenside.
#[derive(Debug, Clone, Copy, PartialEq, Eq, Structural, Hash)]
pub struct CastlingRights(u8);

/// The flag bit for a side of the board and a color.
pub open spec fn castling_flag(kingside: bool, color: Color) -> u8 {
    match (kingside, color) {
        (true, Color::White) => 1,
        (true, Color::Black) => 2,
        (false, Color::White) => 4,
        (false, Color::Black) => 8,
    }
}

proof fn lemma_flag_ops(x: u8, f: u8, g: u8)
    by (bit_vector)
    requires
        f == 1 || f == 2 || f == 4 || f == 8,
        g == 1 || g == 2 || g == 4 || g == 8,
        f != g,
        x < 16,
    ensures
        (x | f) & f != 0,
        (x & !f) & f == 0,
        ((x | f) & g != 0) == (x & g != 0),
        ((x & !f) & g != 0) == (x & g != 0),
        (x | f) < 16,
        (x & !f) < 16,
{
}

proof fn lemma_flag_bits(x: u8, f: u8, g: u8)
    by (bit_vector)
    requires
        f == 1 || f == 2 || f == 4 || f == 8,
        g == 1 || g == 2 || g == 4 || g == 8,
        f != g,
    ensures
        (x | f) & f != 0,
        (x & !f) & f == 0,
        ((x | f) & g != 0) == (x & g != 0),
        ((x & !f) & g != 0) == (x & g != 0),
        (x & f != 0) ==> (x | f) == x,
        (x & f == 0) ==> (x & !f) == x,
{
}

proof fn lemma_flags_ext(x: u8, y: u8)
    by (bit_vector)
    requires
        x < 16,
        y < 16,
        (x & 1 != 0) == (y & 1 != 0),
        (x & 2 != 0) == (y & 2 != 0),
        (x & 4 != 0) == (y & 4 != 0),
        (x & 8 != 0) == (y & 8 != 0),
    ensures
        x == y,
{
}

proof fn lemma_flags_zero(f: u8)
    by (bit_vector)
    requires
        f == 1 || f == 2 || f == 4 || f == 8,
    ensures
        0u8 & f == 0,
{
}

impl CastlingRights {
    #[verifier::type_invariant]
    spec fn flags_in_range(self) -> bool {
        self.0 < 16
    }

    /// Whether the given color may castle on the given side.
    pub closed spec fn spec_has(self, kingside: bool, color: Color) -> bool {
        self.0 & castling_flag(kingside, color) != 0
    }

    /// The rights with one flag set to `value`.
    pub closed spec fn spec_set(self, kingside: bool, color: Color, value: bool) -> CastlingRights {
        let f = castling_flag(kingside, color);
        if value {
            CastlingRights(self.0 | f)
        } else {
            CastlingRights(self.0 & !f)
        }
    }

    /// Setting a flag changes that flag and no other.
    pub proof fn lemma_spec_set(self, kingside: bool, color: Color, value: bool)
        ensures
            self.spec_set(kingside, color, value).spec_has(kingside, color) == value,
            forall|k: bool, c: Color|
                !(k == kingside && c == color) ==> #[trigger] self.spec_set(kingside, color, value).spec_has(k, c)
                    == self.spec_has(k, c),
            self.spec_has(kingside, color) == value ==> self.spec_set(kingside, color, value) == self,
    {
        let f = castling_flag(kingside, color);
        let g1: u8 = if f == 1 { 2 } else { 1 };
        lemma_flag_bits(self.0, f, g1);
        assert forall|k: bool, c: Color|
            !(k == kingside && c == color) implies #[trigger] self.spec_set(kingside, color, value).spec_has(k, c)
                == self.spec_has(k, c) by {
            lemma_flag_bits(self.0, f, castling_flag(k, c));
        }
    }

    pub open spec fn spec_kingside(self, color: Color) -> bool {
        self.spec_has(true, color)
    }

    pub open spec fn spec_queenside(self, color: Color) -> bool {
        self.spec_has(false, color)
    }

    /// No castling rights at all.
    pub closed spec fn spec_none() -> CastlingRights {
        CastlingRights(0u8)
    }

    /// No castling rights hold no right.
    pub proof fn lemma_spec_none()
        ensures
            forall|k: bool, c: Color| !(#[trigger] CastlingRights::spec_none().spec_has(k, c)),
    {
        assert forall|k: bool, c: Color| !(0u8 & castling_flag(k, c) != 0) by {
            lemma_flags_zero(castling_flag(k, c));
        }
    }

    pub fn empty() -> (r: Self)
        ensures
            forall|k: bool, c: Color| !r.spec_has(k, c),
            r == CastlingRights::spec_none(),
    {
        proof {
            assert forall|k: bool, c: Color| !(0u8 & castling_flag(k, c) != 0) by {
                lemma_flags_zero(castling_flag(k, c));
            }
        }
        Self(0u8)
    }

    fn set_flag(&mut self, flag: u8, value: bool)
        requires
            flag == 1 || flag == 2 || flag == 4 || flag == 8,
        ensures
            final(self).0 == (if value { old(self).0 | flag } else { old(self).0 & !flag }),
            final(self).0 & flag != 0 <==> value,
            forall|g: u8|
                (g == 1 || g == 2 || g == 4 || g == 8) && g != flag ==> (final(self).0 & g != 0
                    <==> old(self).0 & g != 0),
    {
        proof {
            use_type_invariant(&*self);
            let g1: u8 = if flag == 1 { 2 } else { 1 };
            lemma_flag_ops(self.0, flag, g1);
        }
        if value {
            self.0 = self.0 | flag;
        } else {
            self.0 = self.0 & !flag;
        }
        proof {
            assert forall|g: u8| (g == 1 || g == 2 || g == 4 || g == 8) && g != flag implies (
            self.0 & g != 0 <==> old(self).0 & g != 0) by {
                lemma_flag_ops(old(self).0, flag, g);
            }
        }
    }

    pub fn set_kingside(&mut self, color: Color, can_castle: bool)
        ensures
            *final(self) == old(self).spec_set(true, color, can_castle),
            final(self).spec_kingside(color) == can_castle,
            forall|k: bool, c: Color|
                !(k && c == color) ==> final(self).spec_has(k, c) == old(self).spec_has(k, c),
    {
        match color {
            Color::White => self.set_flag(1, can_castle),
            Color::Black => self.set_flag(2, can_castle),
        }
    }

    pub fn set_queenside(&mut self, color: Color, can_castle: bool)
        ensures
            *final(self) == old(self).spec_set(false, color, can_castle),
            final(self).spec_queenside(color) == can_castle,
            forall|k: bool, c: Color|
                !(!k && c == color) ==> final(self).spec_has(k, c) == old(self).spec_has(k, c),
    {
        match color {
            Color::White => self.set_flag(4, can_castle),
            Color::Black => self.set_flag(8, can_castle),
        }
    }

    pub fn kingside(&self, color: Color) -> (r: bool)
        ensures
            r == self.spec_kingside(color),
    {
        match color {
            Color::White => self.0 & 1 != 0,
            Color::Black => self.0 & 2 != 0,
        }
    }

    pub fn queenside(&self, color: Color) -> (r: bool)
        ensures
            r == self.spec_queenside(color),
    {
        match color {
            Color::White => self.0 & 4 != 0,
            Color::Black => self.0 & 8 != 0,
        }
    }

    /// Whether no color may castle on any side.
    pub fn is_empty(&self) -> (r: bool)
        ensures
            r == forall|k: bool, c: Color| !self.spec_has(k, c),
    {
        proof {
            use_type_invariant(self);
            if self.0 == 0 {
                assert forall|k: bool, c: Color| !self.spec_has(k, c) by {
                    lemma_flags_zero(castling_flag(k, c));
                }
            } else {
                let e = CastlingRights(0);
                assert forall|k: bool, c: Color| !e.spec_has(k, c) by {
                    lemma_flags_zero(castling_flag(k, c));
                }
                if forall|k: bool, c: Color| !self.spec_has(k, c) {
                    assert(!self.spec_has(true, Color::White) && !self.spec_has(true, Color::Black));
                    assert(!self.spec_has(false, Color::White) && !self.spec_has(false, Color::Black));
                    lemma_flags_zero(1);
                    lemma_flags_zero(2);
                    lemma_flags_zero(4);
                    lemma_flags_zero(8);
                    lemma_flags_ext(self.0, 0);
                }
            }
        }
        self.0 == 0
    }
}

} // verus!
