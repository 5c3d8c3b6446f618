use vstd::prelude::*;
use crate::attacks::{lemma_coords, pawn_attack, pawn_dir};
use crate::bitboard::{file_of, is_square, rank_of};
use crate::board::Board;
use crate::fen::is_ws;
use crate::game::{
    castle_query, first_eq, is_alternative, is_capture, lead_piece, legal_match, legal_san, parse_head, parse_piece_move,
    parse_san, promotion_of, promotion_of_byte, query_matches, read_origin, san_letter, strip_back, strip_front,
    strip_marks, SanQuery, is_ascii_char, san_panics, san_answer,
};
use crate::pieces::{algebraic, file_char, rank_char, Color, Move, MoveType, PieceType};
use crate::utils::{algebraic_value, is_algebraic, lemma_square_name_round_trip};

verus! {

/// The file and rank of origin that the notation of a move names: for
/// pieces, as much as tells it apart from the other legal moves of the same
/// kind of piece to the same square; for pawn captures, the file.
pub open spec fn san_origin(b: Board, mv: Move) -> (Option<u8>, Option<u8>) {
    let from = mv.from as int;
    let p = b.at(from).unwrap().0;
    let any = exists|m: Move| #[trigger] b.is_legal(m) && is_alternative(b, mv, m);
    let same_file = exists|m: Move| #[trigger] b.is_legal(m) && is_alternative(b, mv, m) && m.from % 8 == mv.from % 8;
    let same_rank = exists|m: Move| #[trigger] b.is_legal(m) && is_alternative(b, mv, m) && m.from / 8 == mv.from / 8;
    if p != PieceType::Pawn {
        if !any {
            (None, None)
        } else if !same_file {
            (Some(mv.from % 8), None)
        } else if !same_rank {
            (None, Some(mv.from / 8))
        } else {
            (Some(mv.from % 8), Some(mv.from / 8))
        }
    } else if is_capture(b, mv) {
        (Some(mv.from % 8), None)
    } else {
        (None, None)
    }
}

/// What the notation of a move asks for when read back.
pub open spec fn san_query(b: Board, mv: Move) -> SanQuery {
    match mv.move_type {
        MoveType::Castling(kingside) => castle_query(kingside),
        _ => SanQuery {
            castle: None,
            piece_type: b.at(mv.from as int).unwrap().0,
            to: mv.to,
            promotion: match mv.move_type {
                MoveType::Promotion(q) => Some(q),
                _ => None,
            },
            from_file: san_origin(b, mv).0,
            from_rank: san_origin(b, mv).1,
        },
    }
}

/// A text with no `=` from `i` on has none to find.
proof fn lemma_first_eq_none(s: Seq<char>, i: int)
    requires
        0 <= i <= s.len(),
        forall|k: int| i <= k < s.len() ==> s[k] != '=',
    ensures
        first_eq(s, i) is None,
    decreases s.len() - i,
{
    if i < s.len() {
        lemma_first_eq_none(s, i + 1);
    }
}

/// The first `=` from `i` on is found.
proof fn lemma_first_eq_some(s: Seq<char>, i: int, j: int)
    requires
        0 <= i <= j < s.len(),
        s[j] == '=',
        forall|k: int| i <= k < j ==> s[k] != '=',
    ensures
        first_eq(s, i) == Some(j),
    decreases j - i,
{
    if i < j {
        lemma_first_eq_some(s, i + 1, j);
    }
}

/// The letters and digits of square names.
proof fn lemma_square_chars(sq: int)
    requires
        0 <= sq < 64,
    ensures
        'a' <= file_char(sq) <= 'h',
        '1' <= rank_char(sq) <= '8',
        (file_char(sq) as u32 - 97) as u8 == sq % 8,
        (rank_char(sq) as u32 - 49) as u8 == sq / 8,
        algebraic(sq) == seq![file_char(sq), rank_char(sq)],
{
    lemma_coords(sq);
    assert((sq / 8) % 256 == sq / 8);
}

/// The head of a move's notation, before its destination, reads back as
/// the piece and the origin it names.
proof fn lemma_read_head(
    head: Seq<char>,
    d: Seq<char>,
    lead: Option<PieceType>,
    from: int,
    use_file: bool,
    use_rank: bool,
    x: bool,
)
    requires
        0 <= from < 64,
        d.len() == 2,
        lead matches Some(p) ==> p != PieceType::Pawn,
        head == (match lead {
            Some(p) => seq![san_letter(p)],
            None => Seq::<char>::empty(),
        }) + (if use_file {
            seq![file_char(from)]
        } else {
            Seq::<char>::empty()
        }) + (if use_rank {
            seq![rank_char(from)]
        } else {
            Seq::<char>::empty()
        }) + (if x {
            seq!['x']
        } else {
            Seq::<char>::empty()
        }),
    ensures
        parse_head(head + d) == Some(
            (
                match lead {
                    Some(p) => p,
                    None => PieceType::Pawn,
                },
                if use_file {
                    Some((from % 8) as u8)
                } else {
                    None::<u8>
                },
                if use_rank {
                    Some((from / 8) as u8)
                } else {
                    None::<u8>
                },
            ),
        ),
{
    reveal_with_fuel(read_origin, 5);
    lemma_square_chars(from);
    let body = head + d;
    assert(body.subrange(0, body.len() - 2) =~= head);
    match lead {
        Some(p) => {
            assert(head[0] == san_letter(p));
            assert(lead_piece(head[0]) == Some(p));
        },
        None => {
            if head.len() > 0 {
                assert(lead_piece(head[0]) is None);
            }
        },
    }
}

/// The head of the notation of a move other than castling: piece letter,
/// file and rank of origin, capture mark, as asked for.
pub open spec fn head_text(lead: Option<PieceType>, from: int, use_file: bool, use_rank: bool, cap: bool) -> Seq<char> {
    (match lead {
        Some(p) => seq![san_letter(p)],
        None => Seq::<char>::empty(),
    }) + (if use_file {
        seq![file_char(from)]
    } else {
        Seq::<char>::empty()
    }) + (if use_rank {
        seq![rank_char(from)]
    } else {
        Seq::<char>::empty()
    }) + (if cap {
        seq!['x']
    } else {
        Seq::<char>::empty()
    })
}

/// The promotion suffix of a move's notation.
pub open spec fn promo_text(promo: Option<PieceType>) -> Seq<char> {
    match promo {
        Some(q) => seq!['=', san_letter(q)],
        None => Seq::<char>::empty(),
    }
}

/// A notation built from its parts reads back as the query of its parts.
proof fn lemma_text_parses(
    lead: Option<PieceType>,
    from: int,
    to: int,
    use_file: bool,
    use_rank: bool,
    cap: bool,
    promo: Option<PieceType>,
)
    requires
        0 <= from < 64,
        0 <= to < 64,
        lead matches Some(p) ==> p != PieceType::Pawn,
        promo matches Some(q) ==> q != PieceType::Pawn && q != PieceType::King,
        lead is None && !cap ==> !use_file && !use_rank,
    ensures
        parse_san(head_text(lead, from, use_file, use_rank, cap) + algebraic(to) + promo_text(promo)) == Ok::<
            (Seq<char>, SanQuery),
            Seq<char>,
        >(
            (
                head_text(lead, from, use_file, use_rank, cap) + algebraic(to),
                SanQuery {
                    castle: None,
                    piece_type: match lead {
                        Some(p) => p,
                        None => PieceType::Pawn,
                    },
                    to: to as u8,
                    promotion: promo,
                    from_file: if use_file {
                        Some((from % 8) as u8)
                    } else {
                        None
                    },
                    from_rank: if use_rank {
                        Some((from / 8) as u8)
                    } else {
                        None
                    },
                },
            ),
        ),
{
    let head = head_text(lead, from, use_file, use_rank, cap);
    let d = algebraic(to);
    let body = head + d;
    let pro = promo_text(promo);
    let t = body + pro;
    lemma_square_chars(from);
    lemma_square_chars(to);
    lemma_read_head(head, d, lead, from, use_file, use_rank, cap);
    assert forall|k: int| 0 <= k < body.len() implies body[k] != '=' && !is_ws(body[k]) by {
        if k < head.len() {
            match lead {
                Some(pp) => {
                    if k == 0 {
                        assert(body[k] == san_letter(pp));
                    }
                },
                None => {},
            }
        } else {
            assert(body[k] == d[k - head.len()]);
        }
    }
    assert(t[0] == body[0]);
    assert(t[0] != 'O' && t[0] != '0') by {
        match lead {
            Some(pp) => {
                assert(t[0] == san_letter(pp));
            },
            None => {
                if use_file {
                    assert(t[0] == file_char(from));
                } else if use_rank {
                    assert(t[0] == rank_char(from));
                } else if cap {
                    assert(t[0] == 'x');
                } else {
                    assert(t[0] == file_char(to));
                }
            },
        }
    }
    assert(!is_ws(t.last()) && t.last() != '+' && t.last() != '#') by {
        match promo {
            Some(q) => {
                assert(t.last() == san_letter(q));
            },
            None => {
                assert(t.last() == rank_char(to));
            },
        }
    }
    assert(strip_front(t) == t);
    assert(strip_back(t) == t);
    assert(strip_marks(t) == t);
    assert(t != seq!['O', '-', 'O']);
    assert(t != seq!['0', '-', '0']);
    assert(t != seq!['O', '-', 'O', '-', 'O']);
    assert(t != seq!['0', '-', '0', '-', '0']);
    match promo {
        Some(q) => {
            lemma_first_eq_some(t, 0, body.len() as int);
            assert(t.subrange(0, body.len() as int) =~= body);
            assert(t.subrange(body.len() as int + 1, t.len() as int) =~= seq![san_letter(q)]);
            assert(promotion_of(san_letter(q)) == Some(q));
        },
        None => {
            assert(t =~= body);
            lemma_first_eq_none(t, 0);
        },
    }
    assert(body.subrange(body.len() - 2, body.len() as int) =~= d);
    lemma_square_name_round_trip(to);
}

/// The notation of a move other than castling, in parts.
proof fn lemma_san_parts(b: Board, mv: Move)
    requires
        0 <= mv.from < 64,
        0 <= mv.to < 64,
        !(mv.move_type is Castling),
    ensures
        ({
            let from = mv.from as int;
            let p = b.at(from).unwrap().0;
            let lead = if p != PieceType::Pawn {
                Some(p)
            } else {
                None
            };
            let promo = match mv.move_type {
                MoveType::Promotion(q) => Some(q),
                _ => None,
            };
            legal_san(b, mv) == head_text(
                lead,
                from,
                san_origin(b, mv).0 is Some,
                san_origin(b, mv).1 is Some,
                is_capture(b, mv),
            ) + algebraic(mv.to as int) + promo_text(promo)
        }),
{
    let from = mv.from as int;
    let p = b.at(from).unwrap().0;
    let lead = if p != PieceType::Pawn {
        Some(p)
    } else {
        None
    };
    let promo = match mv.move_type {
        MoveType::Promotion(q) => Some(q),
        _ => None,
    };
    let h = head_text(lead, from, san_origin(b, mv).0 is Some, san_origin(b, mv).1 is Some, is_capture(b, mv));
    lemma_square_chars(from);
    assert(legal_san(b, mv) =~= h + algebraic(mv.to as int) + promo_text(promo));
}

/// The notation of a legal move reads back as the query that names it.
pub proof fn lemma_san_parses(b: Board, mv: Move)
    requires
        b.playable_position(),
        b.is_legal(mv),
    ensures
        parse_san(legal_san(b, mv)) matches Ok((_, q)) && q == san_query(b, mv),
{
    let t = legal_san(b, mv);
    let from = mv.from as int;
    let to = mv.to as int;
    match mv.move_type {
        MoveType::Castling(kingside) => {
            if kingside {
                assert(t =~= seq!['O', '-', 'O']);
            } else {
                assert(t =~= seq!['O', '-', 'O', '-', 'O']);
            }
            assert(!is_ws(t[0]));
            assert(!is_ws(t.last()));
            assert(strip_front(t) == t);
            assert(strip_back(t) == t);
            assert(strip_marks(t) == t);
            if !kingside {
                assert(t != seq!['O', '-', 'O']);
                assert(t != seq!['0', '-', '0']);
            }
        },
        _ => {
            let p = b.at(from).unwrap().0;
            let lead = if p != PieceType::Pawn {
                Some(p)
            } else {
                None
            };
            let promo = match mv.move_type {
                MoveType::Promotion(q) => Some(q),
                _ => None,
            };
            let o = san_origin(b, mv);
            lemma_san_parts(b, mv);
            lemma_text_parses(lead, from, to, o.0 is Some, o.1 is Some, is_capture(b, mv), promo);
            assert(o.0 matches Some(f) ==> f == (from % 8) as u8);
            assert(o.1 matches Some(r) ==> r == (from / 8) as u8);
        },
    }
}

/// Two legal pawn moves of the side to move to one square from different
/// squares: the first is a capture, and the second comes from another file.
proof fn lemma_pawns_to_one_square(b: Board, m1: Move, m2: Move)
    requires
        b.playable_position(),
        b.is_legal(m1),
        b.is_legal(m2),
        !(m1.move_type is Castling),
        !(m2.move_type is Castling),
        b.at(m1.from as int) == Some((PieceType::Pawn, b.spec_active())),
        b.at(m2.from as int) == Some((PieceType::Pawn, b.spec_active())),
        m1.to == m2.to,
        m1.from != m2.from,
    ensures
        is_capture(b, m1),
        m1.from % 8 != m2.from % 8,
{
    let x = b.spec_active();
    let c = x.spec_index();
    let to = m1.to as int;
    let f1 = m1.from as int;
    let f2 = m2.from as int;
    lemma_coords(to);
    lemma_coords(f1);
    lemma_coords(f2);
    lemma_coords(to - 8);
    lemma_coords(to + 8);
    let cap1 = is_capture(b, m1);
    let cap2 = is_capture(b, m2);
    // a capture comes diagonally, a push straight
    assert(cap1 <==> pawn_attack(c, f1, to));
    assert(cap2 <==> pawn_attack(c, f2, to));
    if m1.move_type is EnPassant || m2.move_type is EnPassant {
        assert(b.en_passant_ok(to));
    }
    if !cap1 {
        assert(b.at(to) is None);
    }
    if !cap2 {
        assert(b.at(to) is None);
    }
}

/// The notation of a legal move names that move and no other legal move.
pub proof fn lemma_san_names_one(b: Board, mv: Move)
    requires
        b.playable_position(),
        b.is_legal(mv),
    ensures
        legal_match(b, san_query(b, mv), mv),
        forall|m: Move| #[trigger] legal_match(b, san_query(b, mv), m) ==> m == mv,
{
    let x = b.spec_active();
    let q = san_query(b, mv);
    let from = mv.from as int;
    b.lemma_king_sq(x);
    lemma_coords(from);
    lemma_coords(mv.to as int);
    assert(b.at(from) matches Some((_, cc)) && cc == x);
    assert forall|m: Move| #[trigger] legal_match(b, q, m) implies m == mv by {
        lemma_coords(m.from as int);
        lemma_coords(m.to as int);
        assert(b.at(m.from as int) matches Some((_, cc)) && cc == x);
        match mv.move_type {
            MoveType::Castling(k) => {
                assert(m.from as int == b.king_sq(x));
                assert(mv.from as int == b.king_sq(x));
            },
            _ => {
                let p = b.at(from).unwrap().0;
                assert(b.at(m.from as int) == b.at(from));
                if m.move_type is Castling {
                    assert(m.from as int == b.king_sq(x));
                    assert(mv.from as int == b.king_sq(x));
                    assert(crate::attacks::king_step(from, mv.to as int));
                } else if m.from == mv.from {
                    if p == PieceType::Pawn {
                        if m.move_type is EnPassant || mv.move_type is EnPassant {
                            assert(b.en_passant_ok(mv.to as int));
                        }
                    }
                } else if p == PieceType::Pawn {
                    lemma_pawns_to_one_square(b, mv, m);
                } else {
                    assert(is_alternative(b, mv, m));
                }
            },
        }
    }
}

/// Reading back the notation of a legal move gives that move: the text
/// parses, and the one legal move it asks for is the move.
pub proof fn lemma_san_round_trip(b: Board, mv: Move)
    requires
        b.playable_position(),
        b.is_legal(mv),
    ensures
        parse_san(legal_san(b, mv)) matches Ok((_, q)) && legal_match(b, q, mv) && forall|m: Move|
            #[trigger] legal_match(b, q, m) ==> m == mv,
{
    lemma_san_parses(b, mv);
    lemma_san_names_one(b, mv);
}

/// The ends of the notation of a legal move: it is not empty, starts and
/// ends with no whitespace, and ends with no check or mate mark.
proof fn lemma_san_ends(b: Board, mv: Move)
    requires
        b.playable_position(),
        b.is_legal(mv),
    ensures
        legal_san(b, mv).len() > 0,
        !is_ws(legal_san(b, mv)[0]),
        !is_ws(legal_san(b, mv).last()),
        legal_san(b, mv).last() != '+',
        legal_san(b, mv).last() != '#',
{
    let t = legal_san(b, mv);
    assert(is_square(mv.from as int) && is_square(mv.to as int));
    match mv.move_type {
        MoveType::Castling(kingside) => {
            if kingside {
                assert(t =~= seq!['O', '-', 'O']);
            } else {
                assert(t =~= seq!['O', '-', 'O', '-', 'O']);
            }
        },
        _ => {
            lemma_san_parts(b, mv);
            let from = mv.from as int;
            let to = mv.to as int;
            lemma_square_chars(from);
            lemma_square_chars(to);
            let p = b.at(from).unwrap().0;
            let lead = if p != PieceType::Pawn {
                Some(p)
            } else {
                None
            };
            let promo = match mv.move_type {
                MoveType::Promotion(q) => Some(q),
                _ => None,
            };
            let h = head_text(lead, from, san_origin(b, mv).0 is Some, san_origin(b, mv).1 is Some, is_capture(b, mv));
            let a = algebraic(to);
            let e = promo_text(promo);
            assert(t == h + a + e);
            assert(forall|i: int| 0 <= i < h.len() ==> !is_ws(#[trigger] h[i]));
            if h.len() > 0 {
                assert(t[0] == h[0]);
            } else {
                assert(t[0] == a[0]);
            }
            if let Some(q) = promo {
                assert(t.last() == san_letter(q));
            } else {
                assert(t.last() == a[1]);
            }
        },
    }
}

/// A check or mate mark after a notation does not change what it reads as.
proof fn lemma_parse_marked(x: Seq<char>, m: char)
    requires
        x.len() > 0,
        !is_ws(x[0]),
        !is_ws(x.last()),
        x.last() != '+',
        x.last() != '#',
        m == '+' || m == '#',
    ensures
        parse_san(x.push(m)) == parse_san(x),
{
    let y = x.push(m);
    assert(!is_ws(m));
    assert(y[0] == x[0]);
    assert(strip_front(y) == y);
    assert(strip_front(x) == x);
    assert(strip_back(y) == y);
    assert(strip_back(x) == x);
    assert(y.drop_last() =~= x);
    assert(strip_marks(y) == strip_marks(x));
}

/// Reading back the notation of a legal move followed by a check or mate
/// mark gives that move too: the mark is read past.
pub proof fn lemma_san_round_trip_marked(b: Board, mv: Move, m: char)
    requires
        b.playable_position(),
        b.is_legal(mv),
        m == '+' || m == '#',
    ensures
        parse_san(legal_san(b, mv).push(m)) == parse_san(legal_san(b, mv)),
        parse_san(legal_san(b, mv).push(m)) matches Ok((_, q)) && legal_match(b, q, mv) && forall|mm: Move|
            #[trigger] legal_match(b, q, mm) ==> mm == mv,
{
    lemma_san_ends(b, mv);
    lemma_parse_marked(legal_san(b, mv), m);
    lemma_san_round_trip(b, mv);
}

/// Every character of `s` is ASCII.
pub open spec fn all_ascii(s: Seq<char>) -> bool {
    forall|i: int| 0 <= i < s.len() ==> is_ascii_char(#[trigger] s[i])
}

/// Stripping whitespace and marks from an ASCII text leaves ASCII text.
proof fn lemma_strip_ascii(s: Seq<char>)
    requires
        all_ascii(s),
    ensures
        all_ascii(strip_front(s)),
        all_ascii(strip_back(s)),
        all_ascii(strip_marks(s)),
    decreases s.len(),
{
    if s.len() > 0 {
        assert(all_ascii(s.drop_first())) by {
            assert forall|i: int| 0 <= i < s.drop_first().len() implies is_ascii_char(#[trigger] s.drop_first()[i]) by {
                assert(s.drop_first()[i] == s[i + 1]);
            }
        }
        assert(all_ascii(s.drop_last())) by {
            assert forall|i: int| 0 <= i < s.drop_last().len() implies is_ascii_char(#[trigger] s.drop_last()[i]) by {
                assert(s.drop_last()[i] == s[i]);
            }
        }
        lemma_strip_ascii(s.drop_first());
        lemma_strip_ascii(s.drop_last());
    }
}

/// The first `=` found from `i` on lies within the text.
proof fn lemma_first_eq_bounds(s: Seq<char>, i: int)
    requires
        0 <= i,
    ensures
        first_eq(s, i) matches Some(j) ==> i <= j < s.len(),
    decreases s.len() - i,
{
    if i < s.len() && s[i] != '=' {
        lemma_first_eq_bounds(s, i + 1);
    }
}

/// Reading an ASCII text never splits a character.
pub proof fn lemma_ascii_no_panic(san: Seq<char>)
    requires
        all_ascii(san),
    ensures
        !san_panics(san),
{
    lemma_strip_ascii(san);
    lemma_strip_ascii(strip_front(san));
    let t = strip_back(strip_front(san));
    lemma_strip_ascii(t);
    let s = strip_marks(t);
    lemma_first_eq_bounds(s, 0);
    match first_eq(s, 0) {
        Some(i) => {
            let body = s.subrange(0, i);
            if body.len() >= 1 {
                assert(body.last() == s[i - 1]);
                if body.len() >= 2 {
                    assert(body[body.len() - 2] == s[i - 2]);
                }
            }
        },
        None => {
            if s.len() >= 1 {
                assert(s.last() == s[s.len() - 1]);
                if s.len() >= 2 {
                    assert(is_ascii_char(s[s.len() - 2]));
                }
            }
        },
    }
}

/// The notation of a legal move is ASCII text.
pub proof fn lemma_san_ascii(b: Board, mv: Move)
    requires
        b.playable_position(),
        b.is_legal(mv),
    ensures
        all_ascii(legal_san(b, mv)),
{
    let t = legal_san(b, mv);
    assert(is_square(mv.from as int) && is_square(mv.to as int));
    match mv.move_type {
        MoveType::Castling(kingside) => {
            if kingside {
                assert(t =~= seq!['O', '-', 'O']);
            } else {
                assert(t =~= seq!['O', '-', 'O', '-', 'O']);
            }
        },
        _ => {
            lemma_san_parts(b, mv);
            let from = mv.from as int;
            let to = mv.to as int;
            lemma_square_chars(from);
            lemma_square_chars(to);
            let p = b.at(from).unwrap().0;
            let lead = if p != PieceType::Pawn {
                Some(p)
            } else {
                None
            };
            let promo = match mv.move_type {
                MoveType::Promotion(q) => Some(q),
                _ => None,
            };
            let h = head_text(lead, from, san_origin(b, mv).0 is Some, san_origin(b, mv).1 is Some, is_capture(b, mv));
            let a = algebraic(to);
            let e = promo_text(promo);
            assert(t == h + a + e);
            assert(forall|q: PieceType| is_ascii_char(#[trigger] san_letter(q)));
            assert forall|i: int| 0 <= i < t.len() implies is_ascii_char(#[trigger] t[i]) by {
                if i < h.len() {
                    assert(t[i] == h[i]);
                } else if i < h.len() + a.len() {
                    assert(t[i] == a[i - h.len()]);
                } else {
                    assert(t[i] == e[i - h.len() - a.len()]);
                }
            }
        },
    }
}

/// Whatever `Move::from_san` answers for the notation of a legal move,
/// bare or followed by a check or mate mark, is that move: the text can be
/// read, and it names that move and no other.
pub proof fn lemma_from_san_round_trip(b: Board, mv: Move, mark: Seq<char>, r: Result<Move, String>)
    requires
        b.playable_position(),
        b.is_legal(mv),
        mark == Seq::<char>::empty() || mark == seq!['+'] || mark == seq!['#'],
        match parse_san(legal_san(b, mv) + mark) {
            Err(m) => r matches Err(e) && e@ == m,
            Ok((text, q)) => san_answer(b, q, text, r),
        },
    ensures
        !san_panics(legal_san(b, mv) + mark),
        r == Ok::<Move, String>(mv),
{
    let t = legal_san(b, mv);
    lemma_san_ascii(b, mv);
    assert(all_ascii(t + mark)) by {
        assert forall|i: int| 0 <= i < (t + mark).len() implies is_ascii_char(#[trigger] (t + mark)[i]) by {
            if i < t.len() {
                assert((t + mark)[i] == t[i]);
            }
        }
    }
    lemma_ascii_no_panic(t + mark);
    if mark == Seq::<char>::empty() {
        assert(t + mark =~= t);
        lemma_san_round_trip(b, mv);
    } else {
        let m = mark[0];
        assert(t + mark =~= t.push(m));
        lemma_san_round_trip_marked(b, mv, m);
    }
    let q = parse_san(t + mark)->Ok_0.1;
    assert(legal_match(b, q, mv));
    match r {
        Ok(x) => {
            assert(legal_match(b, q, x));
        },
        Err(e) => {
            assert(exists|m: Move| #[trigger] legal_match(b, q, m));
        },
    }
}

} // verus!
