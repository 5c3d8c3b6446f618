use vstd::prelude::*;
use crate::board::Board;
use crate::fen::{chars_of, string_of};
use crate::game::{is_ascii_char, strip_back, strip_front, trim_span};
use crate::pieces::{Move, MoveType, PieceType};
use crate::utils::{algebraic_value, is_algebraic};

verus! {

/// A character with ASCII capitals turned to lowercase.
pub open spec fn ascii_lower(c: char) -> char {
    if 'A' <= c && c <= 'Z' {
        ((c as u32) + 32) as char
    } else {
        c
    }
}

/// The text of a move in coordinate notation as it is read: without
/// surrounding whitespace, and lowercase.
pub open spec fn uci_text(input: Seq<char>) -> Seq<char> {
    strip_back(strip_front(input)).map_values(|c: char| ascii_lower(c))
}

/// The number of bytes of a character in UTF-8.
pub open spec fn utf8_width(c: char) -> int {
    if (c as u32) < 0x80 {
        1
    } else if (c as u32) < 0x800 {
        2
    } else if (c as u32) < 0x10000 {
        3
    } else {
        4
    }
}

/// The number of bytes of a text in UTF-8.
pub open spec fn utf8_length(t: Seq<char>) -> int
    decreases t.len(),
{
    if t.len() == 0 {
        0
    } else {
        utf8_length(t.drop_last()) + utf8_width(t.last())
    }
}

/// Whether reading the (trimmed, lowercased) text `t` slices its UTF-8
/// bytes inside a character: a text of four or five bytes is cut after two
/// and after four bytes, and each two-byte part is read as a square of two
/// characters. That fails unless the first two characters are ASCII, and,
/// when they name a square, the next two as well.
pub open spec fn uci_panics(t: Seq<char>) -> bool {
    &&& (utf8_length(t) == 4 || utf8_length(t) == 5)
    &&& {
        ||| !(t.len() >= 2 && is_ascii_char(t[0]) && is_ascii_char(t[1]))
        ||| (is_algebraic(t.subrange(0, 2)) && !(t.len() >= 4 && is_ascii_char(t[2]) && is_ascii_char(t[3])))
    }
}

/// The promotion piece of a lowercase promotion letter.
pub open spec fn uci_promotion(c: char) -> Option<PieceType> {
    if c == 'n' {
        Some(PieceType::Knight)
    } else if c == 'b' {
        Some(PieceType::Bishop)
    } else if c == 'r' {
        Some(PieceType::Rook)
    } else if c == 'q' {
        Some(PieceType::Queen)
    } else {
        None
    }
}

/// The kind of a move without a promotion letter: a king moving two files
/// castles, a pawn moving diagonally onto the en passant square captures en
/// passant, any other move is regular.
pub open spec fn uci_plain_type(board: Board, from: int, to: int) -> MoveType {
    if board.at(from) matches Some((PieceType::King, _)) && (from - to == 2 || to - from == 2) {
        MoveType::Castling(to > from)
    } else if board.at(from) matches Some((PieceType::Pawn, _)) && board.meta().en_passant_square == Some(
        to as u8,
    ) && from % 8 != to % 8 {
        MoveType::EnPassant((from / 8 * 8 + to % 8) as u8)
    } else {
        MoveType::Regular
    }
}

/// The move that the (trimmed, lowercased) text `t` names on `board`, or the
/// message for a malformed text.
pub open spec fn uci_move(board: Board, t: Seq<char>) -> Result<Move, Seq<char>> {
    if !(t.len() == 4 || t.len() == 5) || !is_algebraic(t.subrange(0, 2)) || !is_algebraic(
        t.subrange(2, 4),
    ) || (t.len() == 5 && !is_ascii_char(t[4])) {
        Err("Invalid UCI move: '"@ + t + "'"@)
    } else if t.len() == 5 && uci_promotion(t[4]) is None {
        Err("Invalid UCI promotion: '"@ + t + "'"@)
    } else {
        let from = algebraic_value(t.subrange(0, 2));
        let to = algebraic_value(t.subrange(2, 4));
        let move_type = if t.len() == 5 {
            MoveType::Promotion(uci_promotion(t[4]).unwrap())
        } else {
            uci_plain_type(board, from, to)
        };
        Ok(Move { from: from as u8, to: to as u8, move_type })
    }
}

fn lower_char(c: char) -> (r: char)
    ensures
        r == ascii_lower(c),
{
    if 'A' <= c && c <= 'Z' {
        let u = c as u32 + 32;
        assert(97 <= u <= 122);
        (u as u8) as char
    } else {
        c
    }
}

fn promotion_letter_piece(c: char) -> (r: Option<PieceType>)
    ensures
        r == uci_promotion(c),
{
    if c == 'n' {
        Some(PieceType::Knight)
    } else if c == 'b' {
        Some(PieceType::Bishop)
    } else if c == 'r' {
        Some(PieceType::Rook)
    } else if c == 'q' {
        Some(PieceType::Queen)
    } else {
        None
    }
}

fn quoted_message(prefix: &str, t: &Vec<char>) -> (r: String)
    ensures
        r@ == prefix@ + t@ + "'"@,
{
    let mut e = String::from_str(prefix);
    let body = string_of(t);
    e.append(body.as_str());
    e.append("'");
    e
}

/// Reads a move in coordinate notation ("e2e4", "e7e8q"), ignoring
/// surrounding whitespace and case. A king moving two files becomes a
/// castling move and a pawn moving diagonally onto the en passant square an
/// en passant capture; whether the move is legal is not checked.
///
/// The text must not be cut inside a character (see `uci_panics`).
pub fn from_uci(board: &Board, input: &str) -> (r: Result<Move, String>)
    requires
        board.wf(),
        !uci_panics(uci_text(input@)),
    ensures
        match r {
            Ok(mv) => uci_move(*board, uci_text(input@)) == Ok::<Move, Seq<char>>(mv),
            Err(e) => uci_move(*board, uci_text(input@)) == Err::<Move, Seq<char>>(e@),
        },
{
    let chars = chars_of(input);
    let (a, b) = trim_span(&chars);
    let ghost trimmed = strip_back(strip_front(input@));
    let mut t: Vec<char> = Vec::new();
    let mut i: usize = a;
    while i < b
        invariant
            a <= i <= b <= chars@.len(),
            chars@ == input@,
            chars@.subrange(a as int, b as int) == trimmed,
            t@ == chars@.subrange(a as int, i as int).map_values(|c: char| ascii_lower(c)),
        decreases b - i,
    {
        let c = lower_char(chars[i]);
        t.push(c);
        i += 1;
        proof {
            assert(t@ =~= chars@.subrange(a as int, i as int).map_values(|c: char| ascii_lower(c)));
        }
    }
    let ghost text = uci_text(input@);
    proof {
        assert(t@ =~= text);
    }
    proof {
        reveal_strlit("Invalid UCI move: '");
        reveal_strlit("Invalid UCI promotion: '");
        reveal_strlit("'");
    }
    let n = t.len();
    if n != 4 && n != 5 {
        return Err(quoted_message("Invalid UCI move: '", &t));
    }
    let f0 = t[0];
    let r0 = t[1];
    let f1 = t[2];
    let r1 = t[3];
    if !('a' <= f0 && f0 <= 'h' && '1' <= r0 && r0 <= '8' && 'a' <= f1 && f1 <= 'h' && '1' <= r1 && r1
        <= '8') {
        proof {
            assert(t@.subrange(0, 2)[0] == f0 && t@.subrange(0, 2)[1] == r0);
            assert(t@.subrange(2, 4)[0] == f1 && t@.subrange(2, 4)[1] == r1);
        }
        return Err(quoted_message("Invalid UCI move: '", &t));
    }
    proof {
        assert(t@.subrange(0, 2)[0] == f0 && t@.subrange(0, 2)[1] == r0);
        assert(t@.subrange(2, 4)[0] == f1 && t@.subrange(2, 4)[1] == r1);
    }
    if n == 5 && t[4] as u32 >= 128 {
        return Err(quoted_message("Invalid UCI move: '", &t));
    }
    let from = ((r0 as u32 - 49) * 8 + (f0 as u32 - 97)) as usize;
    let to = ((r1 as u32 - 49) * 8 + (f1 as u32 - 97)) as usize;
    let move_type = if n == 5 {
        match promotion_letter_piece(t[4]) {
            Some(p) => MoveType::Promotion(p),
            None => {
                return Err(quoted_message("Invalid UCI promotion: '", &t));
            },
        }
    } else {
        let piece = board.piece_at(from);
        let is_king = match piece {
            Some((PieceType::King, _)) => true,
            _ => false,
        };
        let is_pawn = match piece {
            Some((PieceType::Pawn, _)) => true,
            _ => false,
        };
        if is_king && (from == to + 2 || to == from + 2) {
            MoveType::Castling(to > from)
        } else if is_pawn && board.en_passant_square() == Some(to as u8) && from % 8 != to % 8 {
            MoveType::EnPassant(((from / 8) * 8 + to % 8) as u8)
        } else {
            MoveType::Regular
        }
    };
    Ok(Move { from: from as u8, to: to as u8, move_type })
}

/// The fifth letter of a move in coordinate notation names the piece a
/// pawn is promoted to, in either case: `n` a knight, `b` a bishop, `r` a
/// rook, `q` a queen.
pub proof fn lemma_uci_promotion_letters(board: Board, input: Seq<char>)
    requires
        uci_text(input).len() == 5,
        is_algebraic(uci_text(input).subrange(0, 2)),
        is_algebraic(uci_text(input).subrange(2, 4)),
    ensures
        ({
            let c = strip_back(strip_front(input))[4];
            let r = uci_move(board, uci_text(input));
            &&& (c == 'n' || c == 'N') ==> (r matches Ok(mv) && mv.move_type == MoveType::Promotion(PieceType::Knight))
            &&& (c == 'b' || c == 'B') ==> (r matches Ok(mv) && mv.move_type == MoveType::Promotion(PieceType::Bishop))
            &&& (c == 'r' || c == 'R') ==> (r matches Ok(mv) && mv.move_type == MoveType::Promotion(PieceType::Rook))
            &&& (c == 'q' || c == 'Q') ==> (r matches Ok(mv) && mv.move_type == MoveType::Promotion(PieceType::Queen))
            &&& !(c == 'n' || c == 'N' || c == 'b' || c == 'B' || c == 'r' || c == 'R' || c == 'q' || c == 'Q')
                ==> r is Err
        }),
{
    let t = uci_text(input);
    let c = strip_back(strip_front(input))[4];
    assert(t[4] == ascii_lower(c));
}

} // verus!
