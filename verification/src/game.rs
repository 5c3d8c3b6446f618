use vstd::prelude::*;
use crate::board::Board;
use crate::fen::{chars_of, decimal, fen_error, new_error_of, placement_pieces, push_decimal, rights_from, en_passant_of, halfmove_of, ws_scan, ws_spans, is_whitespace, is_ws, parse_u32_spec, slice_chars, string_of, ws_fields};
use crate::rules::in_check;
use crate::movegen::{appended_legal, MoveSink};
use crate::pieces::{algebraic, file_char, rank_char, Color, Move, MoveType, PieceType};
use crate::utils::push_char;

verus! {

/// The letter of a piece type in algebraic notation.
pub open spec fn san_letter(p: PieceType) -> char {
    match p {
        PieceType::King => 'K',
        PieceType::Queen => 'Q',
        PieceType::Rook => 'R',
        PieceType::Bishop => 'B',
        PieceType::Knight => 'N',
        PieceType::Pawn => 'P',
    }
}

/// The letter of a piece type in algebraic notation.
fn piece_letter(piece_type: PieceType) -> (r: char)
    ensures
        r == san_letter(piece_type),
{
    match piece_type {
        PieceType::King => 'K',
        PieceType::Queen => 'Q',
        PieceType::Rook => 'R',
        PieceType::Bishop => 'B',
        PieceType::Knight => 'N',
        PieceType::Pawn => 'P',
    }
}

/// Whether a move captures: en passant, or onto an occupied square.
pub open spec fn is_capture(b: Board, mv: Move) -> bool {
    mv.move_type is EnPassant || b.at(mv.to as int) is Some
}

/// Another move in `moves` of the same kind of piece to the same square.
pub open spec fn is_alternative(b: Board, mv: Move, m: Move) -> bool {
    m.to == mv.to && m.from != mv.from && b.at(m.from as int) == b.at(mv.from as int)
}

/// The piece letter and, where another such piece could go to the same
/// square, the file, rank or square it comes from; for pawn captures, the
/// file.
pub open spec fn san_prefix(b: Board, mv: Move, moves: Seq<Move>) -> Seq<char> {
    let from = mv.from as int;
    let p = b.at(from).unwrap().0;
    if p != PieceType::Pawn {
        let any = exists|i: int| 0 <= i < moves.len() && #[trigger] is_alternative(b, mv, moves[i]);
        let same_file = exists|i: int|
            0 <= i < moves.len() && #[trigger] is_alternative(b, mv, moves[i]) && moves[i].from % 8 == mv.from % 8;
        let same_rank = exists|i: int|
            0 <= i < moves.len() && #[trigger] is_alternative(b, mv, moves[i]) && moves[i].from / 8 == mv.from / 8;
        seq![san_letter(p)] + if !any {
            seq![]
        } else if !same_file {
            seq![file_char(from)]
        } else if !same_rank {
            seq![rank_char(from)]
        } else {
            algebraic(from)
        }
    } else if is_capture(b, mv) {
        seq![file_char(from)]
    } else {
        seq![]
    }
}

/// The notation of a move other than castling.
pub open spec fn san_body(b: Board, mv: Move, moves: Seq<Move>) -> Seq<char> {
    san_prefix(b, mv, moves) + (if is_capture(b, mv) {
        seq!['x']
    } else {
        seq![]
    }) + algebraic(mv.to as int) + match mv.move_type {
        MoveType::Promotion(q) => seq!['=', san_letter(q)],
        _ => seq![],
    }
}

/// The algebraic notation of `mv` on `b`, disambiguated against the moves
/// `moves`, without check marks.
pub open spec fn san_of(b: Board, mv: Move, moves: Seq<Move>) -> Seq<char> {
    match mv.move_type {
        MoveType::Castling(kingside) => if kingside {
            seq!['O', '-', 'O']
        } else {
            seq!['O', '-', 'O', '-', 'O']
        },
        _ => san_body(b, mv, moves),
    }
}

/// The algebraic notation of `mv` on `b`, disambiguated against the legal
/// moves of `b`, without check marks.
pub open spec fn legal_san(b: Board, mv: Move) -> Seq<char> {
    let from = mv.from as int;
    let p = b.at(from).unwrap().0;
    let any = exists|m: Move| #[trigger] b.is_legal(m) && is_alternative(b, mv, m);
    let same_file = exists|m: Move| #[trigger] b.is_legal(m) && is_alternative(b, mv, m) && m.from % 8 == mv.from % 8;
    let same_rank = exists|m: Move| #[trigger] b.is_legal(m) && is_alternative(b, mv, m) && m.from / 8 == mv.from / 8;
    let prefix = if p != PieceType::Pawn {
        seq![san_letter(p)] + if !any {
            seq![]
        } else if !same_file {
            seq![file_char(from)]
        } else if !same_rank {
            seq![rank_char(from)]
        } else {
            algebraic(from)
        }
    } else if is_capture(b, mv) {
        seq![file_char(from)]
    } else {
        seq![]
    };
    match mv.move_type {
        MoveType::Castling(kingside) => if kingside {
            seq!['O', '-', 'O']
        } else {
            seq!['O', '-', 'O', '-', 'O']
        },
        _ => prefix + (if is_capture(b, mv) {
            seq!['x']
        } else {
            seq![]
        }) + algebraic(mv.to as int) + match mv.move_type {
            MoveType::Promotion(q) => seq!['=', san_letter(q)],
            _ => seq![],
        },
    }
}

/// Disambiguating against a list that holds exactly the legal moves is
/// disambiguating against the legal moves.
pub proof fn lemma_san_of_legal(b: Board, mv: Move, moves: Seq<Move>)
    requires
        forall|m: Move| #[trigger] moves.contains(m) <==> b.is_legal(m),
    ensures
        san_of(b, mv, moves) == legal_san(b, mv),
{
    let any_l = exists|i: int| 0 <= i < moves.len() && #[trigger] is_alternative(b, mv, moves[i]);
    let any_s = exists|m: Move| #[trigger] b.is_legal(m) && is_alternative(b, mv, m);
    if any_l {
        let i = choose|i: int| 0 <= i < moves.len() && #[trigger] is_alternative(b, mv, moves[i]);
        assert(moves.contains(moves[i]));
        assert(b.is_legal(moves[i]));
    }
    if any_s {
        let m = choose|m: Move| #[trigger] b.is_legal(m) && is_alternative(b, mv, m);
        assert(moves.contains(m));
        let i = choose|i: int| 0 <= i < moves.len() && moves[i] == m;
        assert(is_alternative(b, mv, moves[i]));
    }
    let file_l = exists|i: int|
        0 <= i < moves.len() && #[trigger] is_alternative(b, mv, moves[i]) && moves[i].from % 8 == mv.from % 8;
    let file_s = exists|m: Move| #[trigger] b.is_legal(m) && is_alternative(b, mv, m) && m.from % 8 == mv.from % 8;
    if file_l {
        let i = choose|i: int|
            0 <= i < moves.len() && #[trigger] is_alternative(b, mv, moves[i]) && moves[i].from % 8 == mv.from % 8;
        assert(moves.contains(moves[i]));
        assert(b.is_legal(moves[i]));
    }
    if file_s {
        let m = choose|m: Move| #[trigger] b.is_legal(m) && is_alternative(b, mv, m) && m.from % 8 == mv.from % 8;
        assert(moves.contains(m));
        let i = choose|i: int| 0 <= i < moves.len() && moves[i] == m;
        assert(is_alternative(b, mv, moves[i]));
    }
    let rank_l = exists|i: int|
        0 <= i < moves.len() && #[trigger] is_alternative(b, mv, moves[i]) && moves[i].from / 8 == mv.from / 8;
    let rank_s = exists|m: Move| #[trigger] b.is_legal(m) && is_alternative(b, mv, m) && m.from / 8 == mv.from / 8;
    if rank_l {
        let i = choose|i: int|
            0 <= i < moves.len() && #[trigger] is_alternative(b, mv, moves[i]) && moves[i].from / 8 == mv.from / 8;
        assert(moves.contains(moves[i]));
        assert(b.is_legal(moves[i]));
    }
    if rank_s {
        let m = choose|m: Move| #[trigger] b.is_legal(m) && is_alternative(b, mv, m) && m.from / 8 == mv.from / 8;
        assert(moves.contains(m));
        let i = choose|i: int| 0 <= i < moves.len() && moves[i] == m;
        assert(is_alternative(b, mv, moves[i]));
    }
    assert(any_l == any_s);
    assert(file_l == file_s);
    assert(rank_l == rank_s);
}

impl Move {
    /// Whether the move is in the list.
    fn listed(&self, moves: &Vec<Move>) -> (r: bool)
        ensures
            r == moves@.contains(*self),
    {
        let mut i: usize = 0;
        while i < moves.len()
            invariant
                i <= moves.len(),
                forall|j: int| 0 <= j < i ==> moves@[j] != *self,
            decreases moves.len() - i,
        {
            if moves[i] == *self {
                proof {
                    assert(moves@[i as int] == *self);
                }
                return true;
            }
            i += 1;
        }
        false
    }

    /// The algebraic notation of the move on `board`, without check marks,
    /// or an error naming the move if it is not legal there.
    pub fn to_san(&self, board: &Board) -> (r: Result<String, String>)
        requires
            board.playable_position(),
            self.spec_coordinate() is Some,
        ensures
            r is Ok <==> board.is_legal(*self),
            match r {
                Ok(s) => s@ == legal_san(*board, *self),
                Err(e) => e@ == "Illegal move: "@ + self.spec_coordinate().unwrap(),
            },
    {
        let mut legal_moves: Vec<Move> = Vec::new();
        board.generate_legal_moves(&mut legal_moves);
        let ghost moves = legal_moves@;
        proof {
            assert(legal_moves@ == legal_moves.pushed());
            assert(moves.subrange(0, 0) =~= Seq::<Move>::empty());
            assert forall|m: Move| #[trigger] moves.contains(m) <==> board.is_legal(m) by {
                if board.is_legal(m) {
                    assert(crate::movegen::appended_has(Seq::<Move>::empty(), moves, m));
                    let i = choose|i: int| #![trigger moves[i]] 0 <= i < moves.len() && moves[i] == m;
                    assert(moves.contains(m));
                }
                if moves.contains(m) {
                    let i = choose|i: int| 0 <= i < moves.len() && moves[i] == m;
                    assert(board.is_legal(moves[i]));
                }
            }
        }
        if !self.listed(&legal_moves) {
            let mut e = String::from_str("Illegal move: ");
            let name = self.to_coordinate().unwrap();
            e.append(name.as_str());
            return Err(e);
        }
        proof {
            let i = choose|i: int| 0 <= i < moves.len() && moves[i] == *self;
            assert(board.is_legal(moves[i]));
        }
        proof {
            assert forall|i: int| 0 <= i < legal_moves.len() implies (#[trigger] legal_moves@[i]).from < 64 by {
                assert(board.is_legal(moves[i]));
            }
        }
        let s = self.san_with(board, &legal_moves);
        proof {
            lemma_san_of_legal(*board, *self, moves);
        }
        Ok(s)
    }

    /// The notation of a move other than castling.
    fn san_body_text(&self, board: &Board, moves: &Vec<Move>) -> (r: String)
        requires
            self.from < 64,
            self.to < 64,
            board.at(self.from as int) is Some,
            forall|i: int| 0 <= i < moves.len() ==> (#[trigger] moves@[i]).from < 64,
        ensures
            r@ == san_body(*board, *self, moves@),
    {
        let capture = match self.move_type {
            MoveType::EnPassant(_) => true,
            _ => board.piece_at(self.to as usize).is_some(),
        };
        let mut notation = self.san_prefix_text(board, moves, capture);
        let ghost prefix = notation@;
        if capture {
            push_char(&mut notation, 'x');
        }
        let destination = crate::utils::square_to_algebraic(self.to as usize);
        notation.append(destination.as_str());
        let ghost before_promotion = notation@;
        if let MoveType::Promotion(promoted_to) = self.move_type {
            push_char(&mut notation, '=');
            push_char(&mut notation, piece_letter(promoted_to));
        }
        proof {
            assert(before_promotion =~= prefix + (if capture {
                seq!['x']
            } else {
                seq![]
            }) + algebraic(self.to as int));
            assert(notation@ =~= san_body(*board, *self, moves@));
        }
        notation
    }

    /// The piece letter and disambiguation, or the file of a capturing pawn.
    fn san_prefix_text(&self, board: &Board, moves: &Vec<Move>, capture: bool) -> (r: String)
        requires
            self.from < 64,
            board.at(self.from as int) is Some,
            capture == is_capture(*board, *self),
            forall|i: int| 0 <= i < moves.len() ==> (#[trigger] moves@[i]).from < 64,
        ensures
            r@ == san_prefix(*board, *self, moves@),
    {
        let (piece_type, color) = board.piece_at(self.from as usize).unwrap();
        let mut notation = String::new();
        if piece_type != PieceType::Pawn {
            push_char(&mut notation, piece_letter(piece_type));
            let (any, same_file, same_rank) = self.scan_alternatives(board, moves, piece_type, color);
            if any {
                if !same_file {
                    push_char(&mut notation, (97u8 + self.from % 8) as char);
                } else if !same_rank {
                    push_char(&mut notation, (49u8 + self.from / 8) as char);
                } else {
                    let origin = crate::utils::square_to_algebraic(self.from as usize);
                    notation.append(origin.as_str());
                }
            }
        } else if capture {
            push_char(&mut notation, (97u8 + self.from % 8) as char);
        }
        proof {
            assert(notation@ =~= san_prefix(*board, *self, moves@));
        }
        notation
    }

    /// Whether other moves in the list bring the same kind of piece to the
    /// same square, and whether one of them comes from the same file or rank.
    fn scan_alternatives(&self, board: &Board, moves: &Vec<Move>, piece_type: PieceType, color: Color) -> (r: (
        bool,
        bool,
        bool,
    ))
        requires
            board.at(self.from as int) == Some((piece_type, color)),
            forall|i: int| 0 <= i < moves.len() ==> (#[trigger] moves@[i]).from < 64,
        ensures
            r.0 == exists|j: int| 0 <= j < moves.len() && #[trigger] is_alternative(*board, *self, moves@[j]),
            r.1 == exists|j: int|
                0 <= j < moves.len() && #[trigger] is_alternative(*board, *self, moves@[j]) && moves@[j].from % 8
                    == self.from % 8,
            r.2 == exists|j: int|
                0 <= j < moves.len() && #[trigger] is_alternative(*board, *self, moves@[j]) && moves@[j].from / 8
                    == self.from / 8,
    {
        let mut any = false;
        let mut same_file = false;
        let mut same_rank = false;
        let mut i: usize = 0;
        while i < moves.len()
            invariant
                i <= moves.len(),
                board.at(self.from as int) == Some((piece_type, color)),
                any == exists|j: int| 0 <= j < i && #[trigger] is_alternative(*board, *self, moves@[j]),
                same_file == exists|j: int|
                    0 <= j < i && #[trigger] is_alternative(*board, *self, moves@[j]) && moves@[j].from % 8
                        == self.from % 8,
                same_rank == exists|j: int|
                    0 <= j < i && #[trigger] is_alternative(*board, *self, moves@[j]) && moves@[j].from / 8
                        == self.from / 8,
                forall|j: int| 0 <= j < moves.len() ==> (#[trigger] moves@[j]).from < 64,
            decreases moves.len() - i,
        {
            let m = moves[i];
            let same_piece = match board.piece_at(m.from as usize) {
                Some((other_type, other_color)) => other_type == piece_type && other_color == color,
                None => false,
            };
            let alternative = m.to == self.to && m.from != self.from && same_piece;
            proof {
                assert(alternative == is_alternative(*board, *self, m));
                assert(m == moves@[i as int]);
            }
            if alternative {
                any = true;
                if m.from % 8 == self.from % 8 {
                    same_file = true;
                }
                if m.from / 8 == self.from / 8 {
                    same_rank = true;
                }
            }
            i += 1;
        }
        (any, same_file, same_rank)
    }

    /// The algebraic notation of a legal move, disambiguated against the
    /// given moves.
    fn san_with(&self, board: &Board, legal_moves: &Vec<Move>) -> (r: String)
        requires
            self.from < 64,
            self.to < 64,
            board.at(self.from as int) is Some,
            forall|i: int| 0 <= i < legal_moves.len() ==> (#[trigger] legal_moves@[i]).from < 64,
        ensures
            r@ == san_of(*board, *self, legal_moves@),
    {
        let moves = legal_moves;
        match self.move_type {
            MoveType::Castling(true) => {
                let mut s = String::new();
                push_char(&mut s, 'O');
                push_char(&mut s, '-');
                push_char(&mut s, 'O');
                proof {
                    assert(s@ =~= seq!['O', '-', 'O']);
                }
                s
            },
            MoveType::Castling(false) => {
                let mut s = String::new();
                push_char(&mut s, 'O');
                push_char(&mut s, '-');
                push_char(&mut s, 'O');
                push_char(&mut s, '-');
                push_char(&mut s, 'O');
                proof {
                    assert(s@ =~= seq!['O', '-', 'O', '-', 'O']);
                }
                s
            },
            _ => self.san_body_text(board, moves),
        }
    }
}


/// What a move in algebraic notation asks for: castling on a side, or a
/// piece type going to a square, with an optional promotion and optional
/// file and rank of origin.
#[derive(Clone, Copy, PartialEq, Eq, Structural)]
pub struct SanQuery {
    pub castle: Option<bool>,
    pub piece_type: PieceType,
    pub to: u8,
    pub promotion: Option<PieceType>,
    pub from_file: Option<u8>,
    pub from_rank: Option<u8>,
}

/// `s` without leading whitespace.
pub open spec fn strip_front(s: Seq<char>) -> Seq<char>
    decreases s.len(),
{
    if s.len() > 0 && is_ws(s[0]) {
        strip_front(s.drop_first())
    } else {
        s
    }
}

/// `s` without trailing whitespace.
pub open spec fn strip_back(s: Seq<char>) -> Seq<char>
    decreases s.len(),
{
    if s.len() > 0 && is_ws(s.last()) {
        strip_back(s.drop_last())
    } else {
        s
    }
}

/// `s` without trailing check and mate marks.
pub open spec fn strip_marks(s: Seq<char>) -> Seq<char>
    decreases s.len(),
{
    if s.len() > 0 && (s.last() == '+' || s.last() == '#') {
        strip_marks(s.drop_last())
    } else {
        s
    }
}

/// The index of the first `=` in `s` at or after `i`, if any.
pub open spec fn first_eq(s: Seq<char>, i: int) -> Option<int>
    decreases s.len() - i,
{
    if i >= s.len() || i < 0 {
        None
    } else if s[i] == '=' {
        Some(i)
    } else {
        first_eq(s, i + 1)
    }
}

/// The promotion piece of a byte.
pub open spec fn promotion_of_byte(b: u8) -> Option<PieceType> {
    if b == 81 {
        Some(PieceType::Queen)
    } else if b == 82 {
        Some(PieceType::Rook)
    } else if b == 66 {
        Some(PieceType::Bishop)
    } else if b == 78 {
        Some(PieceType::Knight)
    } else {
        None
    }
}

/// The promotion piece of a promotion letter, read as a byte.
pub open spec fn promotion_of(c: char) -> Option<PieceType> {
    promotion_of_byte(((c as u32) % 256) as u8)
}

/// The piece type of a leading piece letter, if any.
pub open spec fn lead_piece(c: char) -> Option<PieceType> {
    if c == 'K' {
        Some(PieceType::King)
    } else if c == 'Q' {
        Some(PieceType::Queen)
    } else if c == 'R' {
        Some(PieceType::Rook)
    } else if c == 'B' {
        Some(PieceType::Bishop)
    } else if c == 'N' {
        Some(PieceType::Knight)
    } else {
        None
    }
}

/// Reads disambiguation characters `i..` of a head: capture marks are
/// skipped, the first file letter and the first rank digit are kept.
pub open spec fn read_origin(h: Seq<char>, i: int, file: Option<u8>, rank: Option<u8>) -> Option<(Option<u8>, Option<u8>)>
    decreases h.len() - i,
{
    if i >= h.len() || i < 0 {
        Some((file, rank))
    } else {
        let c = h[i];
        if c == 'x' {
            read_origin(h, i + 1, file, rank)
        } else if 'a' <= c <= 'h' && file is None {
            read_origin(h, i + 1, Some((c as u32 - 97) as u8), rank)
        } else if '1' <= c <= '8' && rank is None {
            read_origin(h, i + 1, file, Some((c as u32 - 49) as u8))
        } else {
            None
        }
    }
}

/// The piece type and the file and rank of origin that the part of a move's
/// body before its destination gives, if it can be read.
pub open spec fn parse_head(body: Seq<char>) -> Option<(PieceType, Option<u8>, Option<u8>)> {
    let head = body.subrange(0, body.len() - 2);
    let lead = if head.len() > 0 {
        lead_piece(head[0])
    } else {
        None
    };
    let start = if lead is Some {
        1int
    } else {
        0
    };
    match read_origin(head, start, None, None) {
        None => None,
        Some((file, rank)) => Some((if lead is Some { lead.unwrap() } else { PieceType::Pawn }, file, rank)),
    }
}

/// Reads a move other than castling, check marks removed: the text that
/// messages quote and what it asks for, or the message of its error.
pub open spec fn parse_piece_move(s: Seq<char>) -> Result<(Seq<char>, SanQuery), Seq<char>> {
    let (body, promo) = match first_eq(s, 0) {
        Some(i) => (s.subrange(0, i), Some(s.subrange(i + 1, s.len() as int))),
        None => (s, None),
    };
    if promo is Some && promo.unwrap().len() != 1 {
        Err("Invalid promotion in SAN move: "@ + s)
    } else if promo is Some && promotion_of(promo.unwrap()[0]) is None {
        Err("Invalid promotion piece in SAN move."@)
    } else if body.len() < 2 {
        Err("Invalid SAN move: "@ + body)
    } else {
        let destination = body.subrange(body.len() - 2, body.len() as int);
        if !crate::utils::is_algebraic(destination) {
            Err(crate::utils::invalid_square_message(destination))
        } else {
            match parse_head(body) {
                None => Err("Invalid SAN move: "@ + body),
                Some((piece_type, file, rank)) => Ok((
                    body,
                    SanQuery {
                        castle: None,
                        piece_type,
                        to: crate::utils::algebraic_value(destination) as u8,
                        promotion: match promo {
                            Some(p) => promotion_of(p[0]),
                            None => None,
                        },
                        from_file: file,
                        from_rank: rank,
                    },
                )),
            }
        }
    }
}

/// The query for castling on one side.
pub open spec fn castle_query(kingside: bool) -> SanQuery {
    SanQuery {
        castle: Some(kingside),
        piece_type: PieceType::King,
        to: 0,
        promotion: None,
        from_file: None,
        from_rank: None,
    }
}

/// Whether a character is ASCII, one byte in UTF-8.
pub open spec fn is_ascii_char(c: char) -> bool {
    (c as u32) < 128
}

/// Whether reading `san` splits the UTF-8 text inside a character: the
/// body of a move, the promotion suffix read, ends in a character that is
/// not ASCII, or has one just before its last. The destination square is
/// the last two bytes of the body, so the split falls inside that
/// character, or the destination is one character of two bytes.
pub open spec fn san_panics(san: Seq<char>) -> bool {
    let s = strip_marks(strip_back(strip_front(san)));
    let (body, promo) = match first_eq(s, 0) {
        Some(i) => (s.subrange(0, i), Some(s.subrange(i + 1, s.len() as int))),
        None => (s, None),
    };
    &&& (promo matches Some(p) ==> p.len() == 1 && promotion_of(p[0]) is Some)
    &&& body.len() >= 1
    &&& (!is_ascii_char(body.last()) || (body.len() >= 2 && !is_ascii_char(body[body.len() - 2])))
}

/// The text that the messages about a move in algebraic notation quote,
/// and what it asks for, or the message of the error in it.
pub open spec fn parse_san(san: Seq<char>) -> Result<(Seq<char>, SanQuery), Seq<char>> {
    let t = strip_back(strip_front(san));
    let s = strip_marks(t);
    if t.len() == 0 {
        Err("SAN move cannot be empty."@)
    } else if s == seq!['O', '-', 'O'] || s == seq!['0', '-', '0'] {
        Ok((s, castle_query(true)))
    } else if s == seq!['O', '-', 'O', '-', 'O'] || s == seq!['0', '-', '0', '-', '0'] {
        Ok((s, castle_query(false)))
    } else {
        parse_piece_move(s)
    }
}

/// Whether a move is one a parsed query asks for.
pub open spec fn query_matches(b: Board, q: SanQuery, mv: Move) -> bool {
    match q.castle {
        Some(kingside) => mv.move_type == MoveType::Castling(kingside),
        None => {
            &&& mv.to == q.to
            &&& match (mv.move_type, q.promotion) {
                (MoveType::Promotion(p), Some(expected)) => p == expected,
                (MoveType::Promotion(_), None) => false,
                (_, Some(_)) => false,
                _ => true,
            }
            &&& (q.from_file matches Some(f) ==> mv.from % 8 == f)
            &&& (q.from_rank matches Some(r) ==> mv.from / 8 == r)
            &&& (b.at(mv.from as int) matches Some((pt, _)) && pt == q.piece_type)
        },
    }
}


/// A legal move that a parsed query asks for.
pub open spec fn legal_match(b: Board, q: SanQuery, mv: Move) -> bool {
    b.is_legal(mv) && query_matches(b, q, mv)
}

/// The answer to a query with text `text`: the one legal move it asks for;
/// an error when it asks for none; another when it asks for two or more.
pub open spec fn san_answer(b: Board, q: SanQuery, text: Seq<char>, r: Result<Move, String>) -> bool {
    match r {
        Ok(mv) => legal_match(b, q, mv) && forall|m: Move| #[trigger] legal_match(b, q, m) ==> m == mv,
        Err(e) => {
            ||| !(exists|m: Move| #[trigger] legal_match(b, q, m)) && e@ == "Invalid or illegal SAN move: "@ + text
            ||| (exists|m1: Move, m2: Move|
                #![trigger legal_match(b, q, m1), legal_match(b, q, m2)]
                legal_match(b, q, m1) && legal_match(b, q, m2) && m1 != m2) && e@ == "Ambiguous SAN move: "@ + text
        },
    }
}

/// Whether a move is one a parsed query asks for.
fn query_matches_exec(q: &SanQuery, board: &Board, mv: &Move) -> (r: bool)
    requires
        mv.from < 64,
    ensures
        r == query_matches(*board, *q, *mv),
{
    match q.castle {
        Some(kingside) => match mv.move_type {
            MoveType::Castling(k) => k == kingside,
            _ => false,
        },
        None => {
            if mv.to != q.to {
                return false;
            }
            let promotion_ok = match (mv.move_type, q.promotion) {
                (MoveType::Promotion(p), Some(expected)) => p == expected,
                (MoveType::Promotion(_), None) => false,
                (_, Some(_)) => false,
                _ => true,
            };
            if !promotion_ok {
                return false;
            }
            if let Some(f) = q.from_file {
                if mv.from % 8 != f {
                    return false;
                }
            }
            if let Some(r) = q.from_rank {
                if mv.from / 8 != r {
                    return false;
                }
            }
            match board.piece_at(mv.from as usize) {
                Some((piece_type, _)) => piece_type == q.piece_type,
                None => false,
            }
        },
    }
}

/// Finds the one legal move that a query asks for.
fn unique_legal_move(board: &Board, q: &SanQuery, text: &Vec<char>) -> (r: Result<Move, String>)
    requires
        board.playable_position(),
    ensures
        san_answer(*board, *q, text@, r),
{
    let mut legal_moves: Vec<Move> = Vec::new();
    board.generate_legal_moves(&mut legal_moves);
    let ghost moves = legal_moves@;
    proof {
        assert(legal_moves@ == legal_moves.pushed());
        assert(moves.subrange(0, 0) =~= Seq::<Move>::empty());
        assert(appended_legal(*board, seq![], moves));
    }
    let mut matching_move: Option<Move> = None;
    let ghost mut idx: int = 0;
    let mut i: usize = 0;
    while i < legal_moves.len()
        invariant
            i <= legal_moves.len(),
            moves == legal_moves@,
            appended_legal(*board, seq![], moves),
            crate::movegen::distinct_from(seq![], moves),
            match matching_move {
                Some(m) => {
                    &&& 0 <= idx < i
                    &&& moves[idx] == m
                    &&& legal_match(*board, *q, m)
                    &&& forall|j: int| 0 <= j < i && query_matches(*board, *q, #[trigger] moves[j]) ==> j == idx
                },
                None => forall|j: int| 0 <= j < i ==> !query_matches(*board, *q, #[trigger] moves[j]),
            },
        decreases legal_moves.len() - i,
    {
        let mv = legal_moves[i];
        proof {
            assert(board.is_legal(moves[i as int]));
        }
        if query_matches_exec(q, board, &mv) {
            if matching_move.is_some() {
                proof {
                    reveal_strlit("Ambiguous SAN move: ");
                    let m = matching_move.unwrap();
                    assert(moves[idx] != moves[i as int]);
                    assert(legal_match(*board, *q, moves[i as int]));
                    assert(legal_match(*board, *q, m) && legal_match(*board, *q, mv) && m != mv);
                }
                let mut e = String::from_str("Ambiguous SAN move: ");
                let t = string_of(text);
                e.append(t.as_str());
                return Err(e);
            }
            matching_move = Some(mv);
            proof {
                idx = i as int;
            }
        }
        i += 1;
    }
    proof {
        reveal_strlit("Invalid or illegal SAN move: ");
        assert forall|m: Move| #[trigger] legal_match(*board, *q, m) implies moves.contains(m) by {
            assert(crate::movegen::appended_has(Seq::<Move>::empty(), moves, m));
            let j = choose|j: int| #![trigger moves[j]] 0 <= j < moves.len() && moves[j] == m;
            assert(moves.contains(m));
        }
    }
    match matching_move {
        Some(m) => {
            proof {
                assert forall|m2: Move| #[trigger] legal_match(*board, *q, m2) implies m2 == m by {
                    assert(moves.contains(m2));
                    let j = choose|j: int| 0 <= j < moves.len() && moves[j] == m2;
                    assert(query_matches(*board, *q, moves[j]));
                }
            }
            Ok(m)
        },
        None => {
            proof {
                assert forall|m2: Move| !legal_match(*board, *q, m2) by {
                    if legal_match(*board, *q, m2) {
                        assert(moves.contains(m2));
                        let j = choose|j: int| 0 <= j < moves.len() && moves[j] == m2;
                        assert(!query_matches(*board, *q, moves[j]));
                    }
                }
            }
            let mut e = String::from_str("Invalid or illegal SAN move: ");
            let t = string_of(text);
            e.append(t.as_str());
            Err(e)
        },
    }
}


/// The promotion piece of a promotion letter.
fn promotion_piece(character: u8) -> (r: Result<PieceType, String>)
    ensures
        match r {
            Ok(p) => promotion_of_byte(character) == Some(p),
            Err(e) => promotion_of_byte(character) is None && e@ == "Invalid promotion piece in SAN move."@,
        },
{
    match character {
        81u8 => Ok(PieceType::Queen),
        82u8 => Ok(PieceType::Rook),
        66u8 => Ok(PieceType::Bishop),
        78u8 => Ok(PieceType::Knight),
        _ => Err(String::from_str("Invalid promotion piece in SAN move.")),
    }
}

/// A string holding a message followed by some characters.
fn message_with(message: &str, tail: &Vec<char>) -> (r: String)
    ensures
        r@ == message@ + tail@,
{
    let mut e = String::from_str(message);
    let t = string_of(tail);
    e.append(t.as_str());
    e
}

/// Reads the part of a move's body before its destination.
fn parse_head_exec(body: &Vec<char>) -> (r: Option<(PieceType, Option<u8>, Option<u8>)>)
    requires
        body.len() >= 2,
    ensures
        r == parse_head(body@),
{
    let hlen = body.len() - 2;
    let ghost head = body@.subrange(0, hlen as int);
    let mut piece_type = PieceType::Pawn;
    let mut index: usize = 0;
    if hlen > 0 {
        let first = body[0];
        proof {
            assert(head[0] == first);
        }
        if first == 'K' {
            piece_type = PieceType::King;
            index = 1;
        } else if first == 'Q' {
            piece_type = PieceType::Queen;
            index = 1;
        } else if first == 'R' {
            piece_type = PieceType::Rook;
            index = 1;
        } else if first == 'B' {
            piece_type = PieceType::Bishop;
            index = 1;
        } else if first == 'N' {
            piece_type = PieceType::Knight;
            index = 1;
        }
    }
    let mut from_file: Option<u8> = None;
    let mut from_rank: Option<u8> = None;
    let ghost start = index as int;
    proof {
        let lead = if head.len() > 0 {
            lead_piece(head[0])
        } else {
            None
        };
        assert((lead is Some) == (index == 1));
        assert(lead is Some ==> lead.unwrap() == piece_type);
        assert(lead is None ==> piece_type == PieceType::Pawn);
    }
    while index < hlen
        invariant
            index <= hlen,
            hlen + 2 == body@.len(),
            head == body@.subrange(0, hlen as int),
            start == (if head.len() > 0 && lead_piece(head[0]) is Some {
                1int
            } else {
                0
            }),
            read_origin(head, start, None, None) == read_origin(head, index as int, from_file, from_rank),
        decreases hlen - index,
    {
        let ch = body[index];
        proof {
            assert(head[index as int] == ch);
        }
        if ch == 'x' {
        } else if 'a' <= ch && ch <= 'h' && from_file.is_none() {
            from_file = Some((ch as u8) - 97);
        } else if '1' <= ch && ch <= '8' && from_rank.is_none() {
            from_rank = Some((ch as u8) - 49);
        } else {
            proof {
                assert(read_origin(head, index as int, from_file, from_rank) is None);
            }
            return None;
        }
        index += 1;
    }
    Some((piece_type, from_file, from_rank))
}

/// Reads a move other than castling, check marks removed.
fn parse_piece_move_exec(text: &Vec<char>) -> (r: Result<(Vec<char>, SanQuery), String>)
    ensures
        match parse_piece_move(text@) {
            Ok((t, q)) => r matches Ok((v, q2)) && v@ == t && q2 == q,
            Err(m) => r matches Err(e) && e@ == m,
        },
{
    let len = text.len();
    let mut eq: usize = 0;
    while eq < len && text[eq] != '='
        invariant
            eq <= len,
            len == text@.len(),
            first_eq(text@, 0) == first_eq(text@, eq as int),
        decreases len - eq,
    {
        eq += 1;
    }
    let mut promotion: Option<PieceType> = None;
    let mut body_end = len;
    if eq < len {
        if len - eq - 1 != 1 {
            return Err(message_with("Invalid promotion in SAN move: ", text));
        }
        let letter = text[eq + 1];
        proof {
            assert(text@.subrange(eq + 1, len as int)[0] == letter);
        }
        match promotion_piece(((letter as u32) % 256) as u8) {
            Ok(p) => {
                promotion = Some(p);
            },
            Err(e) => {
                return Err(e);
            },
        }
        body_end = eq;
    }
    let body = slice_chars(text, 0, body_end);
    if body.len() < 2 {
        return Err(message_with("Invalid SAN move: ", &body));
    }
    let blen = body.len();
    let file = body[blen - 2];
    let rank = body[blen - 1];
    let ghost destination = body@.subrange(blen - 2, blen as int);
    proof {
        assert(destination[0] == file && destination[1] == rank);
    }
    if !('a' <= file && file <= 'h' && '1' <= rank && rank <= '8') {
        let mut e = String::from_str("Invalid square: '");
        push_char(&mut e, file);
        push_char(&mut e, rank);
        e.append("'");
        proof {
            assert(e@ =~= crate::utils::invalid_square_message(destination));
        }
        return Err(e);
    }
    let to = ((rank as u32 - 49) * 8 + (file as u32 - 97)) as u8;
    proof {
        assert(to == crate::utils::algebraic_value(destination) as u8);
        if eq < len {
            assert(first_eq(text@, 0) == Some(eq as int));
            assert(body@ =~= text@.subrange(0, eq as int));
        } else {
            assert(first_eq(text@, 0) is None);
            assert(body@ =~= text@);
        }
    }
    match parse_head_exec(&body) {
        None => Err(message_with("Invalid SAN move: ", &body)),
        Some((piece_type, from_file, from_rank)) => {
            let q = SanQuery { castle: None, piece_type, to, promotion, from_file, from_rank };
            Ok((body, q))
        },
    }
}

/// The bounds of `chars` with surrounding whitespace and then trailing
/// check and mate marks removed, and whether anything was left before the
/// marks were removed.
/// The span of `chars` left once leading and trailing whitespace is
/// stripped.
pub(crate) fn trim_span(chars: &Vec<char>) -> (r: (usize, usize))
    ensures
        r.0 <= r.1 <= chars@.len(),
        chars@.subrange(r.0 as int, r.1 as int) == strip_back(strip_front(chars@)),
        strip_back(chars@.subrange(r.0 as int, r.1 as int)) == chars@.subrange(r.0 as int, r.1 as int),
{
    let n = chars.len();
    let mut a: usize = 0;
    proof {
        assert(chars@.subrange(0, n as int) =~= chars@);
    }
    while a < n && is_whitespace(chars[a])
        invariant
            a <= n,
            n == chars@.len(),
            strip_front(chars@) == strip_front(chars@.subrange(a as int, n as int)),
        decreases n - a,
    {
        proof {
            assert(chars@.subrange(a as int, n as int).drop_first() =~= chars@.subrange(a + 1, n as int));
        }
        a += 1;
    }
    let mut b: usize = n;
    while b > a && is_whitespace(chars[b - 1])
        invariant
            a <= b <= n,
            n == chars@.len(),
            strip_front(chars@) == chars@.subrange(a as int, n as int),
            strip_back(chars@.subrange(a as int, n as int)) == strip_back(chars@.subrange(a as int, b as int)),
        decreases b,
    {
        proof {
            assert(chars@.subrange(a as int, b as int).drop_last() =~= chars@.subrange(a as int, b - 1));
        }
        b -= 1;
    }
    proof {
        let t = chars@.subrange(a as int, b as int);
        assert(strip_back(t) == t);
    }
    (a, b)
}

fn trim_san(chars: &Vec<char>) -> (r: (usize, usize, bool))
    ensures
        r.0 <= r.1 <= chars@.len(),
        r.2 == (strip_back(strip_front(chars@)).len() > 0),
        chars@.subrange(r.0 as int, r.1 as int) == strip_marks(strip_back(strip_front(chars@))),
{
    let n = chars.len();
    let (a, b) = trim_span(chars);
    let ghost t = chars@.subrange(a as int, b as int);
    let mut c: usize = b;
    while c > a && (chars[c - 1] == '+' || chars[c - 1] == '#')
        invariant
            a <= c <= b <= n,
            n == chars@.len(),
            t == chars@.subrange(a as int, b as int),
            strip_marks(t) == strip_marks(chars@.subrange(a as int, c as int)),
        decreases c,
    {
        proof {
            assert(chars@.subrange(a as int, c as int).drop_last() =~= chars@.subrange(a as int, c - 1));
        }
        c -= 1;
    }
    proof {
        assert(strip_marks(chars@.subrange(a as int, c as int)) == chars@.subrange(a as int, c as int));
    }
    (a, c, a < b)
}

impl Move {
    /// Reads a move in algebraic notation and finds the legal move it names.
    /// Check and mate marks are ignored.
    pub fn from_san(san: &str, board: &Board) -> (r: Result<Move, String>)
        requires
            board.playable_position(),
            !san_panics(san@),
        ensures
            match parse_san(san@) {
                Err(m) => r matches Err(e) && e@ == m,
                Ok((text, q)) => san_answer(*board, q, text, r),
            },
    {
        let chars = chars_of(san);
        let (a, c, nonempty) = trim_san(&chars);
        if !nonempty {
            return Err(String::from_str("SAN move cannot be empty."));
        }
        let text = slice_chars(&chars, a, c);
        let len = text.len();
        if len == 3 && ((text[0] == 'O' && text[1] == '-' && text[2] == 'O') || (text[0] == '0' && text[1] == '-'
            && text[2] == '0')) {
            proof {
                assert(text@ =~= seq!['O', '-', 'O'] || text@ =~= seq!['0', '-', '0']);
            }
            let q = SanQuery {
                castle: Some(true),
                piece_type: PieceType::King,
                to: 0,
                promotion: None,
                from_file: None,
                from_rank: None,
            };
            return unique_legal_move(board, &q, &text);
        }
        proof {
            if text@ == seq!['O', '-', 'O'] || text@ == seq!['0', '-', '0'] {
                assert(text@.len() == 3);
            }
        }
        if len == 5 && ((text[0] == 'O' && text[1] == '-' && text[2] == 'O' && text[3] == '-' && text[4] == 'O') || (
        text[0] == '0' && text[1] == '-' && text[2] == '0' && text[3] == '-' && text[4] == '0')) {
            proof {
                assert(text@ =~= seq!['O', '-', 'O', '-', 'O'] || text@ =~= seq!['0', '-', '0', '-', '0']);
            }
            let q = SanQuery {
                castle: Some(false),
                piece_type: PieceType::King,
                to: 0,
                promotion: None,
                from_file: None,
                from_rank: None,
            };
            return unique_legal_move(board, &q, &text);
        }
        proof {
            if text@ == seq!['O', '-', 'O', '-', 'O'] || text@ == seq!['0', '-', '0', '-', '0'] {
                assert(text@.len() == 5);
            }
        }
        match parse_piece_move_exec(&text) {
            Ok((body, q)) => unique_legal_move(board, &q, &body),
            Err(e) => Err(e),
        }
    }
}


/// The outcome of a finished game.
#[derive(Clone, Copy, Debug, PartialEq, Eq, Structural)]
pub enum GameResult {
    WhiteWin,
    BlackWin,
    Draw,
}

/// A game: the board, the legal moves, the result once there is one, the
/// moves played in algebraic notation, and the PGN tags.
pub struct Game {
    board: Board,
    legal_moves: Vec<Move>,
    result: Option<GameResult>,
    san_moves: Vec<String>,
    event: String,
    site: String,
    date: String,
    round: String,
    white: String,
    black: String,
    tags: Vec<(String, String)>,
}

/// `b` is a board that the FEN string `s` describes: its pieces, side to
/// move, move number, castling rights, en passant square and fifty-move
/// counter, with no moves played on it yet.
pub open spec fn fen_board(s: Seq<char>, b: Board) -> bool {
    let f = ws_fields(s);
    &&& b.valid()
    &&& forall|sq: int|
        crate::bitboard::is_square(sq) ==> #[trigger] b.at(sq) == crate::board::list_at(placement_pieces(f[0]), sq)
    &&& b.spec_active() == if f[1] == seq!['w'] {
        Color::White
    } else {
        Color::Black
    }
    &&& b.spec_halfmove() == halfmove_of(f)
    &&& b.history().len() == 0
    &&& b.metas().len() == 1
    &&& b.meta().castling_rights == rights_from(f[2])
    &&& b.meta().en_passant_square == en_passant_of(f[3])
    &&& Some(b.meta().rule50) == parse_u32_spec(f[4])
}

/// Boards that a FEN string describes agree on whether play can reach them.
pub proof fn lemma_fen_board_legal(s: Seq<char>, a: Board, b: Board)
    requires
        fen_board(s, a),
        fen_board(s, b),
    ensures
        a.legal_position() == b.legal_position(),
{
    assert(a.history() =~= b.history());
    assert forall|sq: int| #[trigger] b.at(sq) == a.at(sq) by {
        if crate::bitboard::is_square(sq) {
            assert(b.at(sq) == crate::board::list_at(placement_pieces(ws_fields(s)[0]), sq));
        }
    }
    assert(a.same_position(b));
    assert(b.same_position(a));
    a.lemma_same_position(b);
    b.lemma_same_position(a);
}

/// The starting position.
pub open spec fn start_fen() -> Seq<char> {
    "rnbqkbnr/pppppppp/8/8/8/8/PPPPPPPP/RNBQKBNR w KQkq - 0 1"@
}

/// The result that a position with no legal moves gives: a win for the
/// other side when the side to move is in check, otherwise a draw.
pub open spec fn no_move_result(b: Board) -> GameResult {
    if in_check(b.placement(), b.spec_active()) {
        match b.spec_active() {
            Color::White => GameResult::BlackWin,
            Color::Black => GameResult::WhiteWin,
        }
    } else {
        GameResult::Draw
    }
}

/// The seven tag roster names.
pub open spec fn roster_name(name: Seq<char>) -> bool {
    ||| name == "Event"@
    ||| name == "Site"@
    ||| name == "Date"@
    ||| name == "Round"@
    ||| name == "White"@
    ||| name == "Black"@
    ||| name == "Result"@
}

impl Game {
    /// The board.
    pub closed spec fn spec_board(&self) -> Board {
        self.board
    }

    /// The legal moves on offer.
    pub closed spec fn spec_legal_moves(&self) -> Seq<Move> {
        self.legal_moves@
    }

    /// The result, once there is one.
    pub closed spec fn spec_result(&self) -> Option<GameResult> {
        self.result
    }

    /// The moves played, in algebraic notation.
    pub closed spec fn spec_san(&self) -> Seq<Seq<char>> {
        self.san_moves@.map_values(|s: String| s@)
    }

    /// The values of the seven tag roster, the result aside: event, site,
    /// date, round, white and black.
    pub closed spec fn spec_roster(&self) -> Seq<Seq<char>> {
        seq![self.event@, self.site@, self.date@, self.round@, self.white@, self.black@]
    }

    /// The other tags, in order.
    pub closed spec fn spec_tags(&self) -> Seq<(Seq<char>, Seq<char>)> {
        self.tags@.map_values(|t: (String, String)| (t.0@, t.1@))
    }

    /// The game's invariant: a board that play can reach, legal moves on
    /// offer, one move in notation per move made.
    pub closed spec fn wf(&self) -> bool {
        &&& self.board.legal_position()
        &&& forall|i: int| 0 <= i < self.legal_moves.len() ==> #[trigger] self.board.is_legal(self.legal_moves@[i])
        &&& self.san_moves.len() == self.board.history().len()
        &&& self.result is Some ==> self.legal_moves.len() == 0
        &&& self.result is None ==> forall|mv: Move| #[trigger] self.board.is_legal(mv) <==> self.legal_moves@.contains(mv)
        &&& self.result is None ==> self.legal_moves.len() > 0
        &&& crate::movegen::groups_in_order(self.board, Seq::<Move>::empty(), self.legal_moves@)
    }

    /// While the game runs, the moves on offer are exactly the legal moves
    /// of its board; once it has a result, none are.
    pub proof fn lemma_moves_on_offer(&self)
        requires
            self.wf(),
        ensures
            self.spec_result() is None ==> forall|mv: Move|
                #[trigger] self.spec_board().is_legal(mv) <==> self.spec_legal_moves().contains(mv),
            self.spec_result() is Some ==> self.spec_legal_moves().len() == 0,
            self.spec_result() is None ==> self.spec_legal_moves().len() > 0,
            crate::movegen::groups_in_order(self.spec_board(), Seq::<Move>::empty(), self.spec_legal_moves()),
    {
    }

    /// Recomputes the legal moves and the result: a draw by threefold
    /// repetition or insufficient material, otherwise the moves of the side
    /// to move, and with none a win for the other side when in check, a draw
    /// when not.
    fn update_legal_moves(&mut self)
        requires
            old(self).board.legal_position(),
        ensures
            final(self).board == old(self).board,
            final(self).san_moves == old(self).san_moves,
            final(self).tags == old(self).tags,
            final(self).event == old(self).event,
            final(self).site == old(self).site,
            final(self).date == old(self).date,
            final(self).round == old(self).round,
            final(self).white == old(self).white,
            final(self).black == old(self).black,
            forall|i: int| 0 <= i < final(self).legal_moves.len() ==> #[trigger] final(self).board.is_legal(
                final(self).legal_moves@[i],
            ),
            final(self).result is None ==> forall|mv: Move|
                #[trigger] final(self).board.is_legal(mv) <==> final(self).legal_moves@.contains(mv),
            !(old(self).board.repetitions() >= 3 || old(self).board.insufficient_material()) ==> forall|mv: Move|
                #[trigger] final(self).board.is_legal(mv) <==> final(self).legal_moves@.contains(mv),
            crate::movegen::groups_in_order(final(self).board, Seq::<Move>::empty(), final(self).legal_moves@),
            (old(self).board.repetitions() >= 3 || old(self).board.insufficient_material()) ==> final(self).legal_moves.len() == 0 && final(self).result == Some(GameResult::Draw),
            !(old(self).board.repetitions() >= 3 || old(self).board.insufficient_material()) ==> (if final(self).legal_moves.len() == 0 {
                final(self).result == Some(no_move_result(old(self).board))
            } else {
                final(self).result is None
            }),
    {
        if self.board.is_threefold_repetition() || self.board.is_insufficient_material() {
            self.legal_moves.clear();
            self.result = Some(GameResult::Draw);
            return;
        }
        self.legal_moves = self.board.legal_moves();
        if self.legal_moves.len() == 0 {
            if self.board.in_check() {
                self.result = Some(
                    match self.board.active_color() {
                        Color::White => GameResult::BlackWin,
                        Color::Black => GameResult::WhiteWin,
                    },
                );
            } else {
                self.result = Some(GameResult::Draw);
            }
        } else {
            self.result = None;
        }
    }

    /// The result, once there is one.
    pub fn result(&self) -> (r: Option<GameResult>)
        ensures
            r == self.spec_result(),
    {
        self.result
    }

    /// The legal moves on offer.
    pub fn legal_moves(&self) -> (r: &Vec<Move>)
        ensures
            r@ == self.spec_legal_moves(),
    {
        &self.legal_moves
    }

    /// The board.
    pub fn board(&self) -> (r: &Board)
        ensures
            *r == self.spec_board(),
    {
        &self.board
    }

    /// Ends the game with a loss for `color`, unless it already has a result.
    pub fn forfeit(&mut self, color: Color) -> (r: Result<(), String>)
        requires
            old(self).wf(),
        ensures
            final(self).wf(),
            final(self).spec_board() == old(self).spec_board(),
            final(self).spec_san() == old(self).spec_san(),
            match r {
                Ok(_) => old(self).spec_result() is None && final(self).spec_result() == Some(
                    match color {
                        Color::White => GameResult::BlackWin,
                        Color::Black => GameResult::WhiteWin,
                    },
                ) && final(self).spec_legal_moves().len() == 0,
                Err(e) => old(self).spec_result() is Some && *final(self) == *old(self) && e@
                    == "Cannot forfeit a game that already has a result."@,
            },
    {
        if self.result.is_some() {
            return Err(String::from_str("Cannot forfeit a game that already has a result."));
        }
        self.result = Some(
            match color {
                Color::White => GameResult::BlackWin,
                Color::Black => GameResult::WhiteWin,
            },
        );
        self.legal_moves.clear();
        Ok(())
    }

    /// Ends the game in a draw, unless it already has a result.
    pub fn draw(&mut self) -> (r: Result<(), String>)
        requires
            old(self).wf(),
        ensures
            final(self).wf(),
            final(self).spec_board() == old(self).spec_board(),
            final(self).spec_san() == old(self).spec_san(),
            match r {
                Ok(_) => old(self).spec_result() is None && final(self).spec_result() == Some(GameResult::Draw)
                    && final(self).spec_legal_moves().len() == 0,
                Err(e) => old(self).spec_result() is Some && *final(self) == *old(self) && e@
                    == "Cannot declare a draw for a game that already has a result."@,
            },
    {
        if self.result.is_some() {
            return Err(String::from_str("Cannot declare a draw for a game that already has a result."));
        }
        self.result = Some(GameResult::Draw);
        self.legal_moves.clear();
        Ok(())
    }

    /// Sets the event tag.
    pub fn set_event(&mut self, event: String)
        ensures
            final(self).spec_roster() == old(self).spec_roster().update(0, event@),
            final(self).wf() == old(self).wf(),
            final(self).spec_board() == old(self).spec_board(),
    {
        self.event = event;
        proof {
            assert(final(self).spec_roster() =~= old(self).spec_roster().update(0, event@));
            assert(self.board == old(self).board);
            assert(self.legal_moves == old(self).legal_moves);
            assert(self.san_moves == old(self).san_moves);
            assert(self.result == old(self).result);
        }
    }

    /// Sets the site tag.
    pub fn set_site(&mut self, site: String)
        ensures
            final(self).spec_roster() == old(self).spec_roster().update(1, site@),
            final(self).wf() == old(self).wf(),
            final(self).spec_board() == old(self).spec_board(),
    {
        self.site = site;
        proof {
            assert(final(self).spec_roster() =~= old(self).spec_roster().update(1, site@));
            assert(self.board == old(self).board);
            assert(self.legal_moves == old(self).legal_moves);
            assert(self.san_moves == old(self).san_moves);
            assert(self.result == old(self).result);
        }
    }

    /// Sets the date tag.
    pub fn set_date(&mut self, date: String)
        ensures
            final(self).spec_roster() == old(self).spec_roster().update(2, date@),
            final(self).wf() == old(self).wf(),
            final(self).spec_board() == old(self).spec_board(),
    {
        self.date = date;
        proof {
            assert(final(self).spec_roster() =~= old(self).spec_roster().update(2, date@));
            assert(self.board == old(self).board);
            assert(self.legal_moves == old(self).legal_moves);
            assert(self.san_moves == old(self).san_moves);
            assert(self.result == old(self).result);
        }
    }

    /// Sets the round tag.
    pub fn set_round(&mut self, round: String)
        ensures
            final(self).spec_roster() == old(self).spec_roster().update(3, round@),
            final(self).wf() == old(self).wf(),
            final(self).spec_board() == old(self).spec_board(),
    {
        self.round = round;
        proof {
            assert(final(self).spec_roster() =~= old(self).spec_roster().update(3, round@));
            assert(self.board == old(self).board);
            assert(self.legal_moves == old(self).legal_moves);
            assert(self.san_moves == old(self).san_moves);
            assert(self.result == old(self).result);
        }
    }

    /// Sets the white player tag.
    pub fn set_white(&mut self, white: String)
        ensures
            final(self).spec_roster() == old(self).spec_roster().update(4, white@),
            final(self).wf() == old(self).wf(),
            final(self).spec_board() == old(self).spec_board(),
    {
        self.white = white;
        proof {
            assert(final(self).spec_roster() =~= old(self).spec_roster().update(4, white@));
            assert(self.board == old(self).board);
            assert(self.legal_moves == old(self).legal_moves);
            assert(self.san_moves == old(self).san_moves);
            assert(self.result == old(self).result);
        }
    }

    /// Sets the black player tag.
    pub fn set_black(&mut self, black: String)
        ensures
            final(self).spec_roster() == old(self).spec_roster().update(5, black@),
            final(self).wf() == old(self).wf(),
            final(self).spec_board() == old(self).spec_board(),
    {
        self.black = black;
        proof {
            assert(final(self).spec_roster() =~= old(self).spec_roster().update(5, black@));
            assert(self.board == old(self).board);
            assert(self.legal_moves == old(self).legal_moves);
            assert(self.san_moves == old(self).san_moves);
            assert(self.result == old(self).result);
        }
    }
}


/// The local date in the form `YYYY.MM.DD`
/// (`chrono::Local::now().format("%Y.%m.%d").to_string()`). Nothing is
/// claimed of the text: it depends on the clock and the time zone.
#[verifier::external_body]
fn local_date() -> (r: String) {
    chrono::Local::now().format("%Y.%m.%d").to_string()
}

/// A PGN tag value with backslashes and double quotes escaped.
pub open spec fn escape(s: Seq<char>) -> Seq<char>
    decreases s.len(),
{
    if s.len() == 0 {
        seq![]
    } else {
        escape(s.drop_last()) + if s.last() == '\\' {
            seq!['\\', '\\']
        } else if s.last() == '"' {
            seq!['\\', '"']
        } else {
            seq![s.last()]
        }
    }
}

/// A PGN tag line.
pub open spec fn tag_line(name: Seq<char>, value: Seq<char>) -> Seq<char> {
    seq!['['] + name + seq![' ', '"'] + escape(value) + seq!['"', ']', '\n']
}

/// The lines of a list of tags.
pub open spec fn tags_text(tags: Seq<(Seq<char>, Seq<char>)>) -> Seq<char>
    decreases tags.len(),
{
    if tags.len() == 0 {
        seq![]
    } else {
        tags_text(tags.drop_last()) + tag_line(tags.last().0, tags.last().1)
    }
}

/// The result in PGN.
pub open spec fn result_text(r: GameResult) -> Seq<char> {
    match r {
        GameResult::WhiteWin => "1-0"@,
        GameResult::BlackWin => "0-1"@,
        GameResult::Draw => "1/2-1/2"@,
    }
}

/// Move `i` of the movetext, where the first move was made on a halfmove
/// of parity `s` with move number `n0`: white moves carry their number.
pub open spec fn move_item(san: Seq<Seq<char>>, i: int, s: int, n0: int) -> Seq<char> {
    if (i + s) % 2 == 0 {
        decimal((n0 + (i + s) / 2) as nat) + seq!['.', ' '] + san[i] + seq![' ']
    } else {
        san[i] + seq![' ']
    }
}

/// The first `k` moves of the movetext.
pub open spec fn move_items(san: Seq<Seq<char>>, k: int, s: int, n0: int) -> Seq<char>
    decreases k,
{
    if k <= 0 {
        seq![]
    } else {
        move_items(san, k - 1, s, n0) + move_item(san, k - 1, s, n0)
    }
}

/// The movetext of moves `san` starting on halfmove `start`: a black first
/// move is numbered with an ellipsis.
pub open spec fn movetext(san: Seq<Seq<char>>, start: int) -> Seq<char> {
    let n0 = start / 2 + 1;
    let s = start % 2;
    (if s == 1 && san.len() > 0 {
        decimal(n0 as nat) + seq!['.', '.', '.', ' ']
    } else {
        seq![]
    }) + move_items(san, san.len() as int, s, n0)
}

/// Appends the escaped characters of a tag value.
fn push_escaped(out: &mut String, value: &Vec<char>)
    ensures
        final(out)@ == old(out)@ + escape(value@),
{
    let ghost start = out@;
    let mut i: usize = 0;
    while i < value.len()
        invariant
            i <= value.len(),
            out@ == start + escape(value@.subrange(0, i as int)),
        decreases value.len() - i,
    {
        let c = value[i];
        let ghost before = out@;
        if c == '\\' {
            push_char(out, '\\');
            push_char(out, '\\');
        } else if c == '"' {
            push_char(out, '\\');
            push_char(out, '"');
        } else {
            push_char(out, c);
        }
        proof {
            let next = value@.subrange(0, i + 1);
            assert(next.drop_last() =~= value@.subrange(0, i as int));
            assert(out@ =~= start + escape(next));
        }
        i += 1;
    }
    proof {
        assert(value@.subrange(0, i as int) =~= value@);
    }
}

/// Escapes backslashes and double quotes in a PGN tag value.
fn escape_pgn_value(value: &str) -> (r: String)
    ensures
        r@ == escape(value@),
{
    let chars = chars_of(value);
    let mut r = String::new();
    push_escaped(&mut r, &chars);
    r
}

/// Appends a tag line.
fn push_tag_line(out: &mut String, name: &str, value: &str)
    ensures
        final(out)@ == old(out)@ + tag_line(name@, value@),
{
    let ghost start = out@;
    push_char(out, '[');
    out.append(name);
    push_char(out, ' ');
    push_char(out, '"');
    let escaped = escape_pgn_value(value);
    out.append(escaped.as_str());
    push_char(out, '"');
    push_char(out, ']');
    push_char(out, '\n');
    proof {
        assert(out@ =~= start + tag_line(name@, value@));
    }
}

/// Whether two strings hold the same characters.
fn same_text(a: &str, b: &str) -> (r: bool)
    ensures
        r == (a@ == b@),
{
    let x = chars_of(a);
    let y = chars_of(b);
    if x.len() != y.len() {
        return false;
    }
    let mut i: usize = 0;
    while i < x.len()
        invariant
            i <= x.len(),
            x.len() == y.len(),
            x@ == a@,
            y@ == b@,
            forall|j: int| 0 <= j < i ==> x@[j] == y@[j],
        decreases x.len() - i,
    {
        if x[i] != y[i] {
            return false;
        }
        i += 1;
    }
    proof {
        assert(x@ =~= y@);
    }
    true
}

impl Game {
    /// Plays a legal move: records it in algebraic notation, with `+` for a
    /// check and `#` when no legal move is left in check, and recomputes the
    /// legal moves and the result. An illegal move is refused with an error
    /// naming it.
    pub fn make_move(&mut self, mv: Move) -> (r: Result<Option<PieceType>, String>)
        requires
            old(self).wf(),
            old(self).spec_board().spec_halfmove() < u32::MAX,
            mv.spec_coordinate() is Some,
        ensures
            final(self).wf(),
            match r {
                Ok(captured) => {
                    let b0 = old(self).spec_board();
                    let b1 = final(self).spec_board();
                    let mark = if in_check(b1.placement(), b1.spec_active()) {
                        if final(self).spec_legal_moves().len() == 0 {
                            seq!['#']
                        } else {
                            seq!['+']
                        }
                    } else {
                        seq![]
                    };
                    &&& old(self).spec_legal_moves().contains(mv)
                    &&& b0.is_legal(mv)
                    &&& Board::made(b0, mv, b1)
                    &&& captured == b0.spec_captured(mv)
                    &&& final(self).spec_san() == old(self).spec_san().push(legal_san(b0, mv) + mark)
                    &&& (b1.repetitions() >= 3 || b1.insufficient_material()) ==> final(self).spec_result() == Some(
                        GameResult::Draw,
                    )
                    &&& !(b1.repetitions() >= 3 || b1.insufficient_material()) ==> (if final(self).spec_legal_moves().len() == 0 {
                        final(self).spec_result() == Some(no_move_result(b1))
                    } else {
                        final(self).spec_result() is None
                    })
                    &&& final(self).spec_roster() == old(self).spec_roster()
                    &&& final(self).spec_tags() == old(self).spec_tags()
                },
                Err(e) => {
                    &&& !old(self).spec_legal_moves().contains(mv)
                    &&& *final(self) == *old(self)
                    &&& e@ == "Illegal move: "@ + mv.spec_coordinate().unwrap()
                },
            },
    {
        if !mv.listed(&self.legal_moves) {
            let mut e = String::from_str("Illegal move: ");
            let name = mv.to_coordinate().unwrap();
            e.append(name.as_str());
            return Err(e);
        }
        let ghost b0 = self.board;
        let ghost old_moves = self.legal_moves@;
        let ghost old_san = self.san_moves@;
        proof {
            let i = choose|i: int| 0 <= i < old_moves.len() && old_moves[i] == mv;
            assert(b0.is_legal(old_moves[i]));
            assert forall|i: int| 0 <= i < self.legal_moves.len() implies (#[trigger] self.legal_moves@[i]).from
                < 64 by {
                assert(b0.is_legal(self.legal_moves@[i]));
            }
            b0.lemma_follows_applicable(mv);
        }
        let mut san = mv.san_with(&self.board, &self.legal_moves);
        let ghost plain = san@;
        let captured = self.board.make_move_unchecked(mv);
        proof {
            b0.lemma_legal_position_kept(mv, self.board);
        }
        self.update_legal_moves();
        if self.board.in_check() {
            if self.legal_moves.len() == 0 {
                push_char(&mut san, '#');
            } else {
                push_char(&mut san, '+');
            }
        }
        self.san_moves.push(san);
        proof {
            let b1 = self.board;
            let mark = if in_check(b1.placement(), b1.spec_active()) {
                if self.legal_moves.len() == 0 {
                    seq!['#']
                } else {
                    seq!['+']
                }
            } else {
                seq![]
            };
            assert(san@ == plain + mark);
            assert(self.spec_san() =~= old(self).spec_san().push(san_of(b0, mv, old_moves) + mark)) by {
                assert(self.san_moves@ == old_san.push(san));
                assert forall|i: int| 0 <= i < old_san.len() implies self.san_moves@[i] == old_san[i] by {}
            }
            assert(self.spec_roster() =~= old(self).spec_roster());
            assert(self.spec_tags() =~= old(self).spec_tags());
            assert(old(self).result is None);
            lemma_san_of_legal(b0, mv, old_moves);
        }
        Ok(captured)
    }

    /// Adds a PGN tag, unless it belongs to the seven tag roster or is
    /// already there.
    pub fn add_tag(&mut self, name: String, value: String) -> (r: Result<(), String>)
        ensures
            final(self).spec_board() == old(self).spec_board(),
            final(self).wf() == old(self).wf(),
            final(self).spec_roster() == old(self).spec_roster(),
            match r {
                Ok(_) => {
                    &&& !roster_name(name@)
                    &&& forall|i: int| 0 <= i < old(self).spec_tags().len() ==> #[trigger] old(self).spec_tags()[i].0
                        != name@
                    &&& final(self).spec_tags() == old(self).spec_tags().push((name@, value@))
                },
                Err(e) => {
                    &&& *final(self) == *old(self)
                    &&& if roster_name(name@) {
                        e@ == "The tag '"@ + name@ + "' belongs to the Seven Tag Roster."@
                    } else {
                        &&& exists|i: int| 0 <= i < old(self).spec_tags().len() && #[trigger] old(self).spec_tags()[i].0
                            == name@
                        &&& e@ == "Duplicate PGN tag: "@ + name@
                    }
                },
            },
    {
        let roster = name == String::from_str("Event") || name == String::from_str("Site") || name
            == String::from_str("Date") || name == String::from_str("Round") || name == String::from_str("White")
            || name == String::from_str("Black") || name == String::from_str("Result");
        if roster {
            let mut e = String::from_str("The tag '");
            e.append(name.as_str());
            e.append("' belongs to the Seven Tag Roster.");
            return Err(e);
        }
        let mut i: usize = 0;
        while i < self.tags.len()
            invariant
                i <= self.tags.len(),
                *self == *old(self),
                !roster_name(name@),
                forall|j: int| 0 <= j < i ==> #[trigger] self.tags@[j].0@ != name@,
            decreases self.tags.len() - i,
        {
            if self.tags[i].0 == name {
                let mut e = String::from_str("Duplicate PGN tag: ");
                e.append(name.as_str());
                proof {
                    assert(old(self).spec_tags()[i as int].0 == name@);
                    assert(!roster_name(name@));
                    assert(exists|j: int| 0 <= j < old(self).spec_tags().len() && #[trigger] old(self).spec_tags()[j].0
                        == name@);
                }
                return Err(e);
            }
            i += 1;
        }
        let ghost old_tags = self.tags@;
        self.tags.push((name, value));
        proof {
            assert(self.spec_tags() =~= old(self).spec_tags().push((name@, value@)));
            assert(self.board == old(self).board);
            assert(self.legal_moves == old(self).legal_moves);
            assert(self.san_moves == old(self).san_moves);
            assert(self.result == old(self).result);
            assert(self.spec_roster() =~= old(self).spec_roster());
        }
        Ok(())
    }
}


/// The PGN text of a finished game: the seven tag roster, the other tags,
/// a blank line, the movetext and the result.
pub open spec fn pgn_text(
    roster: Seq<Seq<char>>,
    result: GameResult,
    tags: Seq<(Seq<char>, Seq<char>)>,
    san: Seq<Seq<char>>,
    start: int,
) -> Seq<char> {
    let res = result_text(result);
    tag_line("Event"@, roster[0]) + tag_line("Site"@, roster[1]) + tag_line("Date"@, roster[2]) + tag_line(
        "Round"@,
        roster[3],
    ) + tag_line("White"@, roster[4]) + tag_line("Black"@, roster[5]) + tag_line("Result"@, res) + tags_text(tags)
        + seq!['\n'] + movetext(san, start) + res
}

/// The exported game names its result in the Result tag and again as the
/// last token of the movetext: `1-0` exactly for a white win, `0-1` exactly
/// for a black win, `1/2-1/2` exactly for a draw.
pub proof fn lemma_pgn_result(
    roster: Seq<Seq<char>>,
    result: GameResult,
    tags: Seq<(Seq<char>, Seq<char>)>,
    san: Seq<Seq<char>>,
    start: int,
)
    ensures
        ({
            let text = pgn_text(roster, result, tags, san, start);
            let head = tag_line("Event"@, roster[0]) + tag_line("Site"@, roster[1]) + tag_line("Date"@, roster[2])
                + tag_line("Round"@, roster[3]) + tag_line("White"@, roster[4]) + tag_line("Black"@, roster[5]);
            let token = if result == GameResult::WhiteWin {
                "1-0"@
            } else if result == GameResult::BlackWin {
                "0-1"@
            } else {
                "1/2-1/2"@
            };
            &&& text == head + tag_line("Result"@, token) + tags_text(tags) + seq!['\n'] + movetext(san, start) + token
            &&& (text.len() >= 3 && text.subrange(text.len() - 3, text.len() as int) == "1-0"@) <==> result
                == GameResult::WhiteWin
            &&& (text.len() >= 3 && text.subrange(text.len() - 3, text.len() as int) == "0-1"@) <==> result
                == GameResult::BlackWin
            &&& (text.len() >= 7 && text.subrange(text.len() - 7, text.len() as int) == "1/2-1/2"@) <==> result
                == GameResult::Draw
        }),
{
    reveal_strlit("1-0");
    reveal_strlit("0-1");
    reveal_strlit("1/2-1/2");
    let text = pgn_text(roster, result, tags, san, start);
    let token = result_text(result);
    let n = text.len();
    assert(text.subrange(n - token.len(), n as int) =~= token);
    if result == GameResult::Draw {
        assert(text.subrange(n - 3, n as int) =~= seq!['1', '/', '2']);
    } else {
        if n >= 7 {
            assert(text.subrange(n - 7, n as int)[6] == token[2]);
            assert(text.subrange(n - 7, n as int)[4] == token[0]);
        }
    }
}

/// The last token of a string that ends in a space and a digit is that
/// digit.
proof fn lemma_last_token(s: Seq<char>)
    requires
        s.len() >= 2,
        s[s.len() - 2] == ' ',
        '0' <= s[s.len() - 1] <= '9',
    ensures
        ws_spans(s).len() >= 1,
        ws_spans(s).last() == (s.len() - 1, s.len() as int),
{
    reveal_with_fuel(ws_scan, 3);
    let n = s.len();
    assert(crate::fen::is_ws(s[n - 2]));
    assert(ws_scan(s, (n - 1) as nat).1 == -1);
}

impl Game {
    /// The game as PGN; a game without a result cannot be exported.
    pub fn to_pgn(&self) -> (r: Result<String, String>)
        requires
            self.wf(),
        ensures
            match r {
                Ok(text) => self.spec_result() is Some && text@ == pgn_text(
                    self.spec_roster(),
                    self.spec_result().unwrap(),
                    self.spec_tags(),
                    self.spec_san(),
                    self.spec_board().spec_halfmove() - self.spec_san().len(),
                ),
                Err(e) => self.spec_result() is None && e@ == "Cannot export an unfinished game as PGN."@,
            },
    {
        let result = match self.result {
            Some(result) => result,
            None => {
                return Err(String::from_str("Cannot export an unfinished game as PGN."));
            },
        };
        let result_text: &str = match result {
            GameResult::WhiteWin => "1-0",
            GameResult::BlackWin => "0-1",
            GameResult::Draw => "1/2-1/2",
        };
        let mut pgn = String::new();
        push_tag_line(&mut pgn, "Event", self.event.as_str());
        push_tag_line(&mut pgn, "Site", self.site.as_str());
        push_tag_line(&mut pgn, "Date", self.date.as_str());
        push_tag_line(&mut pgn, "Round", self.round.as_str());
        push_tag_line(&mut pgn, "White", self.white.as_str());
        push_tag_line(&mut pgn, "Black", self.black.as_str());
        push_tag_line(&mut pgn, "Result", result_text);
        let ghost roster_text = pgn@;
        let mut i: usize = 0;
        while i < self.tags.len()
            invariant
                i <= self.tags.len(),
                pgn@ == roster_text + tags_text(self.spec_tags().subrange(0, i as int)),
            decreases self.tags.len() - i,
        {
            push_tag_line(&mut pgn, self.tags[i].0.as_str(), self.tags[i].1.as_str());
            proof {
                let next = self.spec_tags().subrange(0, i + 1);
                assert(next.drop_last() =~= self.spec_tags().subrange(0, i as int));
                assert(next.last() == (self.tags@[i as int].0@, self.tags@[i as int].1@));
            }
            i += 1;
        }
        proof {
            assert(self.spec_tags().subrange(0, i as int) =~= self.spec_tags());
        }
        push_char(&mut pgn, '\n');
        let ghost header = pgn@;
        let halfmove = self.board.halfmove_number();
        let count = self.san_moves.len() as u32;
        let starting_halfmove = if halfmove >= count {
            halfmove - count
        } else {
            0
        };
        let ghost san = self.spec_san();
        let ghost start = starting_halfmove as int;
        let ghost n0 = start / 2 + 1;
        let ghost parity = start % 2;
        let mut move_number: u32 = starting_halfmove / 2 + 1;
        let white_to_move = starting_halfmove % 2 == 0;
        if !white_to_move && self.san_moves.len() > 0 {
            push_decimal(&mut pgn, move_number);
            push_char(&mut pgn, '.');
            push_char(&mut pgn, '.');
            push_char(&mut pgn, '.');
            push_char(&mut pgn, ' ');
        }
        let ghost moves_start = pgn@;
        proof {
            assert(moves_start =~= header + (if parity == 1 && san.len() > 0 {
                decimal(n0 as nat) + seq!['.', '.', '.', ' ']
            } else {
                seq![]
            }));
        }
        let mut index: usize = 0;
        while index < self.san_moves.len()
            invariant
                index <= self.san_moves.len(),
                san == self.spec_san(),
                san.len() == self.san_moves.len(),
                white_to_move == (parity == 0),
                0 <= parity < 2,
                n0 == start / 2 + 1,
                start <= u32::MAX,
                start + self.san_moves.len() <= u32::MAX + 1,
                move_number == n0 + (index + parity) / 2,
                pgn@ == moves_start + move_items(san, index as int, parity, n0),
            decreases self.san_moves.len() - index,
        {
            let white_move = white_to_move == (index % 2 == 0);
            let ghost before = pgn@;
            proof {
                assert(san[index as int] == self.san_moves@[index as int]@);
            }
            if white_move {
                push_decimal(&mut pgn, move_number);
                push_char(&mut pgn, '.');
                push_char(&mut pgn, ' ');
                pgn.append(self.san_moves[index].as_str());
                push_char(&mut pgn, ' ');
            } else {
                pgn.append(self.san_moves[index].as_str());
                push_char(&mut pgn, ' ');
                move_number += 1;
            }
            proof {
                assert(pgn@ =~= before + move_item(san, index as int, parity, n0));
            }
            index += 1;
        }
        pgn.append(result_text);
        proof {
            assert(pgn@ =~= pgn_text(self.spec_roster(), result, self.spec_tags(), san, start));
        }
        Ok(pgn)
    }
}


impl Game {
    /// A game starting from the position of a FEN string, with the seven
    /// tag roster unknown but for the date, and `SetUp` and `FEN` tags
    /// unless it is the standard starting position.
    pub fn starting_at_fen(fen: &str) -> (r: Result<Self, String>)
        requires
            fen_error(fen@) is None ==> parse_u32_spec(ws_fields(fen@)[5]).unwrap() <= 0x8000_0000,
        ensures
            match r {
                Ok(g) => {
                    let f = ws_fields(fen@);
                    let b = g.spec_board();
                    &&& g.wf()
                    &&& b.legal_position()
                    &&& fen_board(fen@, b)
                    &&& fen_error(fen@) is None
                    &&& new_error_of(f) is None
                    &&& forall|sq: int|
                        crate::bitboard::is_square(sq) ==> #[trigger] b.at(sq) == crate::board::list_at(
                            placement_pieces(f[0]),
                            sq,
                        )
                    &&& b.spec_active() == if f[1] == seq!['w'] {
                        Color::White
                    } else {
                        Color::Black
                    }
                    &&& b.spec_halfmove() == halfmove_of(f)
                    &&& b.history().len() == 0
                    &&& b.meta().castling_rights == rights_from(f[2])
                    &&& b.meta().en_passant_square == en_passant_of(f[3])
                    &&& Some(b.meta().rule50) == parse_u32_spec(f[4])
                    &&& g.spec_san().len() == 0
                    &&& g.spec_roster()[0] == "?"@
                    &&& g.spec_roster()[1] == "?"@
                    &&& g.spec_roster()[3] == "?"@
                    &&& g.spec_roster()[4] == "?"@
                    &&& g.spec_roster()[5] == "?"@
                    &&& g.spec_tags() == if fen@ == start_fen() {
                        seq![]
                    } else {
                        seq![("SetUp"@, "1"@), ("FEN"@, fen@)]
                    }
                    &&& (b.repetitions() >= 3 || b.insufficient_material()) ==> g.spec_result() == Some(
                        GameResult::Draw,
                    )
                    &&& !(b.repetitions() >= 3 || b.insufficient_material()) ==> (if g.spec_legal_moves().len()
                        == 0 {
                        g.spec_result() == Some(no_move_result(b))
                    } else {
                        g.spec_result() is None
                    })
                },
                Err(e) => match fen_error(fen@) {
                    Some(m) => e@ == "Invalid FEN: "@ + m,
                    None => match new_error_of(ws_fields(fen@)) {
                        Some(m) => e@ == "Invalid FEN position: "@ + m,
                        None => {
                            &&& e@ == "Invalid FEN position: the position cannot arise in play."@
                            &&& forall|b: Board| #[trigger] fen_board(fen@, b) ==> !b.legal_position()
                        },
                    },
                },
            },
    {
        let board = match Board::from_fen(fen) {
            Ok(b) => b,
            Err(e) => {
                return Err(e);
            },
        };
        if !board.is_legal_position() {
            proof {
                assert forall|b: Board| #[trigger] fen_board(fen@, b) implies !b.legal_position() by {
                    lemma_fen_board_legal(fen@, board, b);
                }
            }
            return Err(String::from_str("Invalid FEN position: the position cannot arise in play."));
        }
        let mut game = Game {
            board,
            legal_moves: Vec::new(),
            result: None,
            san_moves: Vec::new(),
            event: String::from_str("?"),
            site: String::from_str("?"),
            date: local_date(),
            round: String::from_str("?"),
            white: String::from_str("?"),
            black: String::from_str("?"),
            tags: Vec::new(),
        };
        if !same_text(fen, "rnbqkbnr/pppppppp/8/8/8/8/PPPPPPPP/RNBQKBNR w KQkq - 0 1") {
            game.tags.push((String::from_str("SetUp"), String::from_str("1")));
            game.tags.push((String::from_str("FEN"), String::from_str(fen)));
        }
        game.update_legal_moves();
        proof {
            assert(game.spec_tags() =~= if fen@ == start_fen() {
                seq![]
            } else {
                seq![("SetUp"@, "1"@), ("FEN"@, fen@)]
            });
            assert(game.spec_san() =~= Seq::<Seq<char>>::empty());
        }
        Ok(game)
    }

    /// A game from the standard starting position.
    pub fn new() -> (g: Self)
        ensures
            g.wf(),
            forall|sq: int|
                crate::bitboard::is_square(sq) ==> #[trigger] g.spec_board().at(sq) == crate::start::start_piece(sq),
            g.spec_board().spec_active() == Color::White,
            g.spec_board().spec_halfmove() == 0,
            g.spec_board().history().len() == 0,
            forall|k: bool, c: Color| #[trigger] g.spec_board().meta().castling_rights.spec_has(k, c),
            g.spec_board().meta().en_passant_square is None,
            g.spec_board().meta().rule50 == 0,
            g.spec_result() is None,
            g.spec_san().len() == 0,
            g.spec_roster()[0] == "?"@,
            g.spec_roster()[1] == "?"@,
            g.spec_roster()[3] == "?"@,
            g.spec_roster()[4] == "?"@,
            g.spec_roster()[5] == "?"@,
            g.spec_tags().len() == 0,
    {
        let board = crate::start::start_board();
        let mut game = Game {
            board,
            legal_moves: Vec::new(),
            result: None,
            san_moves: Vec::new(),
            event: String::from_str("?"),
            site: String::from_str("?"),
            date: local_date(),
            round: String::from_str("?"),
            white: String::from_str("?"),
            black: String::from_str("?"),
            tags: Vec::new(),
        };
        game.update_legal_moves();
        proof {
            let mv = Move { from: 12, to: 28, move_type: MoveType::Regular };
            assert(game.board.is_legal(mv));
            assert(game.legal_moves@.contains(mv));
            assert(game.spec_san() =~= Seq::<Seq<char>>::empty());
            assert(game.spec_tags() =~= seq![]);
        }
        game
    }
}


} // verus!
