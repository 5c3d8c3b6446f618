use vstd::prelude::*;
use crate::board::{
    en_passant_backed, king_home, list_at, list_count, list_valid, right_backed, rook_home, Board,
};
use crate::bitboard::is_square;
use crate::pieces::{algebraic, CastlingRights, Color, PieceType};
use crate::utils::lemma_square_name_round_trip;
use crate::game::fen_board;
use crate::fen::{
    all_digits, board_fen, castling_error, castling_letter_flag, castling_scan, castling_text, decimal, rights_from,
    digits_value, en_passant_of, fen_error, halfmove_of, lemma_placement_valid, new_error_of, parse_u32_spec,
    placement_pieces,
    digit_char, digit_value, letter_piece, placement_upto, rank_scan, empties_text, fen_letter, file_count, first_bad, is_piece_letter, is_rank_digit, is_ws,
    placement_error, placement_text, rank_error, rank_text, ranks_error, slash_fields, slash_scan, ws_fields, ws_scan,
    ws_spans,
};

verus! {

/// Spans moved right by `o`.
pub open spec fn shifted(sp: Seq<(int, int)>, o: int) -> Seq<(int, int)> {
    sp.map_values(|p: (int, int)| (p.0 + o, p.1 + o))
}

/// The spans found in the first `i` characters lie within them.
proof fn lemma_ws_scan_bounds(s: Seq<char>, i: nat)
    requires
        i <= s.len(),
    ensures
        -1 <= ws_scan(s, i).1 < i,
        forall|k: int|
            0 <= k < ws_scan(s, i).0.len() ==> 0 <= (#[trigger] ws_scan(s, i).0[k]).0 <= ws_scan(s, i).0[k].1 <= i,
    decreases i,
{
    if i > 0 {
        lemma_ws_scan_bounds(s, (i - 1) as nat);
    }
}

/// A token, a space, and more text: the scan of the more text, moved right,
/// after the token's span.
proof fn lemma_ws_scan_cons(t: Seq<char>, rest: Seq<char>, k: nat)
    requires
        t.len() > 0,
        forall|j: int| 0 <= j < t.len() ==> !is_ws(#[trigger] t[j]),
        k <= rest.len(),
    ensures
        ({
            let s = t + seq![' '] + rest;
            let o: int = t.len() as int + 1;
            let (sp, st) = ws_scan(rest, k);
            ws_scan(s, (o + k) as nat) == (seq![(0int, t.len() as int)] + shifted(sp, o), if st >= 0 {
                st + o
            } else {
                -1
            })
        }),
    decreases k,
{
    let s = t + seq![' '] + rest;
    let o: int = t.len() as int + 1;
    if k == 0 {
        lemma_ws_scan_token(t, seq![' '] + rest, t.len());
        assert(s =~= t + (seq![' '] + rest));
        lemma_ws_scan_prefix(s, t + (seq![' '] + rest), t.len());
        assert(s[t.len() as int] == ' ');
        assert(shifted(Seq::<(int, int)>::empty(), o) =~= Seq::<(int, int)>::empty());
        assert(seq![(0int, t.len() as int)] + Seq::<(int, int)>::empty() =~= seq![(0int, t.len() as int)]);
    } else {
        lemma_ws_scan_cons(t, rest, (k - 1) as nat);
        let (sp, st) = ws_scan(rest, (k - 1) as nat);
        assert(s[o + k - 1] == rest[k - 1]);
        assert(shifted(sp.push((st, k - 1)), o as int) =~= shifted(sp, o).push((st + o, k - 1 + o)));
        assert(seq![(0int, t.len() as int)] + shifted(sp, o).push((st + o, k - 1 + o)) =~= (seq![
            (0int, t.len() as int),
        ] + shifted(sp, o)).push((st + o, k - 1 + o)));
    }
}

/// Scanning the same first `i` characters gives the same result.
proof fn lemma_ws_scan_prefix(s1: Seq<char>, s2: Seq<char>, i: nat)
    requires
        i <= s1.len(),
        i <= s2.len(),
        forall|j: int| 0 <= j < i ==> s1[j] == s2[j],
    ensures
        ws_scan(s1, i) == ws_scan(s2, i),
    decreases i,
{
    if i > 0 {
        lemma_ws_scan_prefix(s1, s2, (i - 1) as nat);
    }
}

/// Inside a token at the start of the text, the scan has found nothing and
/// holds the token open.
proof fn lemma_ws_scan_token(t: Seq<char>, rest: Seq<char>, i: nat)
    requires
        t.len() > 0,
        forall|j: int| 0 <= j < t.len() ==> !is_ws(#[trigger] t[j]),
        1 <= i <= t.len(),
    ensures
        ws_scan(t + rest, i) == (Seq::<(int, int)>::empty(), 0int),
    decreases i,
{
    let s = t + rest;
    assert(s[i - 1] == t[i - 1]);
    assert(!is_ws(s[i - 1]));
    if i > 1 {
        lemma_ws_scan_token(t, rest, (i - 1) as nat);
    } else {
        assert(ws_scan(s, 0) == (Seq::<(int, int)>::empty(), -1int));
    }
    assert(ws_scan(s, i) == (ws_scan(s, (i - 1) as nat).0, if ws_scan(s, (i - 1) as nat).1 >= 0 {
        ws_scan(s, (i - 1) as nat).1
    } else {
        i - 1
    }));
}

/// A text of one token without whitespace is that token.
pub proof fn lemma_ws_fields_one(t: Seq<char>)
    requires
        t.len() > 0,
        forall|j: int| 0 <= j < t.len() ==> !is_ws(#[trigger] t[j]),
    ensures
        ws_fields(t) == seq![t],
{
    lemma_ws_scan_token(t, Seq::<char>::empty(), t.len());
    assert(t + Seq::<char>::empty() =~= t);
    assert(ws_spans(t) =~= seq![(0int, t.len() as int)]);
    assert(t.subrange(0, t.len() as int) =~= t);
    assert(ws_fields(t) =~= seq![t]);
}

/// A token without whitespace, a space, and more text starting with a
/// token: the token, then the tokens of the more text.
pub proof fn lemma_ws_fields_cons(t: Seq<char>, rest: Seq<char>)
    requires
        t.len() > 0,
        forall|j: int| 0 <= j < t.len() ==> !is_ws(#[trigger] t[j]),
    ensures
        ws_fields(t + seq![' '] + rest) == seq![t] + ws_fields(rest),
{
    let s = t + seq![' '] + rest;
    let o: int = t.len() as int + 1;
    lemma_ws_scan_cons(t, rest, rest.len());
    lemma_ws_scan_bounds(rest, rest.len());
    let (sp, st) = ws_scan(rest, rest.len());
    assert(s.len() == o + rest.len());
    let rs = ws_spans(rest);
    let ss = ws_spans(s);
    assert(ss =~= seq![(0int, t.len() as int)] + shifted(rs, o)) by {
        if st >= 0 {
            assert(shifted(sp.push((st, rest.len() as int)), o as int) =~= shifted(sp, o).push(
                (st + o, rest.len() as int + o),
            ));
            assert(seq![(0int, t.len() as int)] + shifted(sp, o).push((st + o, rest.len() as int + o)) =~= (seq![
                (0int, t.len() as int),
            ] + shifted(sp, o)).push((st + o, rest.len() as int + o)));
        }
    }
    assert forall|k: int| 0 <= k < rs.len() implies 0 <= (#[trigger] rs[k]).0 <= rs[k].1 <= rest.len() by {
        if k < sp.len() {
            assert(rs[k] == sp[k]);
        }
    }
    assert(ws_fields(s) =~= seq![t] + ws_fields(rest)) by {
        assert(s.subrange(0, t.len() as int) =~= t);
        assert forall|k: int| 0 <= k < rs.len() implies s.subrange(rs[k].0 + o, rs[k].1 + o) =~= rest.subrange(
            rs[k].0,
            rs[k].1,
        ) by {
            let a = rs[k].0;
            let e = rs[k].1;
            assert forall|j: int| 0 <= j < e - a implies #[trigger] s.subrange(a + o, e + o)[j] == rest.subrange(
                a,
                e,
            )[j] by {
                assert(s[a + o + j] == rest[a + j]);
            }
        }
    }
}

/// The parts found in the first `i` characters lie within them.
proof fn lemma_slash_scan_bounds(s: Seq<char>, i: nat)
    requires
        i <= s.len(),
    ensures
        0 <= slash_scan(s, i).1 <= i,
        forall|k: int|
            0 <= k < slash_scan(s, i).0.len() ==> 0 <= (#[trigger] slash_scan(s, i).0[k]).0 <= slash_scan(
                s,
                i,
            ).0[k].1 <= i,
    decreases i,
{
    if i > 0 {
        lemma_slash_scan_bounds(s, (i - 1) as nat);
    }
}

/// Inside a first part without slashes, the scan has found nothing yet.
proof fn lemma_slash_scan_part(t: Seq<char>, rest: Seq<char>, i: nat)
    requires
        forall|j: int| 0 <= j < t.len() ==> #[trigger] t[j] != '/',
        i <= t.len(),
    ensures
        slash_scan(t + rest, i) == (Seq::<(int, int)>::empty(), 0int),
    decreases i,
{
    if i > 0 {
        let s = t + rest;
        assert(s[i - 1] == t[i - 1]);
        lemma_slash_scan_part(t, rest, (i - 1) as nat);
    }
}

/// A part, a slash, and more text: the scan of the more text, moved right,
/// after the part's span.
proof fn lemma_slash_scan_cons(t: Seq<char>, rest: Seq<char>, k: nat)
    requires
        forall|j: int| 0 <= j < t.len() ==> #[trigger] t[j] != '/',
        k <= rest.len(),
    ensures
        ({
            let s = t + seq!['/'] + rest;
            let o: int = t.len() as int + 1;
            let (sp, st) = slash_scan(rest, k);
            slash_scan(s, (o + k) as nat) == (seq![(0int, t.len() as int)] + shifted(sp, o), st + o)
        }),
    decreases k,
{
    let s = t + seq!['/'] + rest;
    let o: int = t.len() as int + 1;
    if k == 0 {
        assert(s =~= t + (seq!['/'] + rest));
        lemma_slash_scan_part(t, seq!['/'] + rest, t.len());
        assert(s[t.len() as int] == '/');
        assert(shifted(Seq::<(int, int)>::empty(), o) =~= Seq::<(int, int)>::empty());
        assert(seq![(0int, t.len() as int)] + Seq::<(int, int)>::empty() =~= seq![(0int, t.len() as int)]);
    } else {
        lemma_slash_scan_cons(t, rest, (k - 1) as nat);
        let (sp, st) = slash_scan(rest, (k - 1) as nat);
        assert(s[o + k - 1] == rest[k - 1]);
        assert(shifted(sp.push((st, k - 1)), o) =~= shifted(sp, o).push((st + o, k - 1 + o)));
        assert(seq![(0int, t.len() as int)] + shifted(sp, o).push((st + o, k - 1 + o)) =~= (seq![
            (0int, t.len() as int),
        ] + shifted(sp, o)).push((st + o, k - 1 + o)));
    }
}

/// A text without slashes is one part.
pub proof fn lemma_slash_fields_one(t: Seq<char>)
    requires
        forall|j: int| 0 <= j < t.len() ==> #[trigger] t[j] != '/',
    ensures
        slash_fields(t) == seq![t],
{
    lemma_slash_scan_part(t, Seq::<char>::empty(), t.len());
    assert(t + Seq::<char>::empty() =~= t);
    assert(t.subrange(0, t.len() as int) =~= t);
    assert(slash_fields(t) =~= seq![t]);
}

/// A part without slashes, a slash, and more text: the part, then the parts
/// of the more text.
pub proof fn lemma_slash_fields_cons(t: Seq<char>, rest: Seq<char>)
    requires
        forall|j: int| 0 <= j < t.len() ==> #[trigger] t[j] != '/',
    ensures
        slash_fields(t + seq!['/'] + rest) == seq![t] + slash_fields(rest),
{
    let s = t + seq!['/'] + rest;
    let o: int = t.len() as int + 1;
    lemma_slash_scan_cons(t, rest, rest.len());
    lemma_slash_scan_bounds(rest, rest.len());
    let (sp, st) = slash_scan(rest, rest.len());
    assert(s.len() == o + rest.len());
    let rs = sp.push((st, rest.len() as int));
    let ss = (seq![(0int, t.len() as int)] + shifted(sp, o)).push((st + o, s.len() as int));
    assert(ss =~= seq![(0int, t.len() as int)] + shifted(rs, o)) by {
        assert(shifted(rs, o) =~= shifted(sp, o).push((st + o, rest.len() as int + o)));
    }
    assert forall|k: int| 0 <= k < rs.len() implies 0 <= (#[trigger] rs[k]).0 <= rs[k].1 <= rest.len() by {
        if k < sp.len() {
            assert(rs[k] == sp[k]);
        }
    }
    assert(slash_fields(s) =~= seq![t] + slash_fields(rest)) by {
        assert(s.subrange(0, t.len() as int) =~= t);
        assert forall|k: int| 0 <= k < rs.len() implies s.subrange(rs[k].0 + o, rs[k].1 + o) =~= rest.subrange(
            rs[k].0,
            rs[k].1,
        ) by {
            let a = rs[k].0;
            let e = rs[k].1;
            assert forall|j: int| 0 <= j < e - a implies #[trigger] s.subrange(a + o, e + o)[j] == rest.subrange(
                a,
                e,
            )[j] by {
                assert(s[a + o + j] == rest[a + j]);
            }
        }
    }
}

/// A character that may stand in the piece placement field of a rank.
pub open spec fn rank_char_ok(c: char) -> bool {
    is_rank_digit(c) || is_piece_letter(c)
}

/// A rank has no bad character when all of its characters may stand there.
proof fn lemma_first_bad_none(x: Seq<char>)
    requires
        forall|i: int| 0 <= i < x.len() ==> rank_char_ok(#[trigger] x[i]),
    ensures
        first_bad(x) is None,
    decreases x.len(),
{
    if x.len() > 0 {
        assert forall|i: int| 0 <= i < x.drop_last().len() implies rank_char_ok(#[trigger] x.drop_last()[i]) by {
            assert(x.drop_last()[i] == x[i]);
        }
        lemma_first_bad_none(x.drop_last());
        assert(rank_char_ok(x[x.len() - 1]));
    }
}

/// The files covered by two texts one after the other add up.
proof fn lemma_file_count_add(a: Seq<char>, b: Seq<char>)
    ensures
        file_count(a + b) == file_count(a) + file_count(b),
    decreases b.len(),
{
    if b.len() == 0 {
        assert(a + b =~= a);
    } else {
        lemma_file_count_add(a, b.drop_last());
        assert((a + b).drop_last() =~= a + b.drop_last());
        assert((a + b).last() == b.last());
    }
}

/// The text of files `file..8` of a rank, `empties` empty squares pending:
/// rank characters only, covering the files left and the pending ones, and
/// not empty while anything is left to write.
proof fn lemma_rank_text(b: Board, rank: int, file: int, empties: int)
    requires
        0 <= file <= 8,
        0 <= empties <= file,
    ensures
        forall|i: int|
            0 <= i < rank_text(b, rank, file, empties).len() ==> rank_char_ok(
                #[trigger] rank_text(b, rank, file, empties)[i],
            ),
        file_count(rank_text(b, rank, file, empties)) == 8 - file + empties,
        (file < 8 || empties > 0) ==> rank_text(b, rank, file, empties).len() > 0,
    decreases 8 - file,
{
    let e = empties_text(empties);
    if empties > 0 {
        assert(digit_char(empties) as int == empties + 48);
    }
    assert(forall|i: int| 0 <= i < e.len() ==> rank_char_ok(#[trigger] e[i]));
    assert(file_count(e) == empties) by {
        if empties > 0 {
            assert(e.drop_last() =~= Seq::<char>::empty());
            assert(digit_char(empties) as int == empties + 48);
            assert(is_rank_digit(e.last()));
            assert(digit_value(e.last()) == empties);
            reveal_with_fuel(file_count, 2);
        } else {
            assert(e =~= Seq::<char>::empty());
        }
    }
    if file < 8 {
        match b.at(rank * 8 + file) {
            Some(p) => {
                lemma_rank_text(b, rank, file + 1, 0);
                let tail = rank_text(b, rank, file + 1, 0);
                let l = seq![fen_letter(p)];
                assert(rank_char_ok(fen_letter(p)));
                assert(file_count(l) == 1) by {
                    assert(l.drop_last() =~= Seq::<char>::empty());
                    assert(!is_rank_digit(l.last()));
                    reveal_with_fuel(file_count, 2);
                }
                lemma_file_count_add(e, l);
                lemma_file_count_add(e + l, tail);
                let whole = e + l + tail;
                assert forall|i: int| 0 <= i < whole.len() implies rank_char_ok(#[trigger] whole[i]) by {
                    if i < e.len() {
                        assert(whole[i] == e[i]);
                    } else if i == e.len() {
                        assert(whole[i] == fen_letter(p));
                    } else {
                        assert(whole[i] == tail[i - e.len() - 1]);
                    }
                }
            },
            None => {
                lemma_rank_text(b, rank, file + 1, empties + 1);
            },
        }
    }
}

/// The texts of ranks `rank` down to the first, top rank first.
pub open spec fn rank_texts(b: Board, rank: int) -> Seq<Seq<char>>
    decreases rank,
{
    if rank <= 0 {
        seq![rank_text(b, 0, 0, 0)]
    } else {
        seq![rank_text(b, rank, 0, 0)] + rank_texts(b, rank - 1)
    }
}

/// The piece placement text splits at its slashes into the texts of its
/// ranks.
proof fn lemma_placement_parts(b: Board, rank: int)
    requires
        0 <= rank <= 7,
    ensures
        slash_fields(placement_text(b, rank)) == rank_texts(b, rank),
        forall|i: int|
            0 <= i < placement_text(b, rank).len() ==> !is_ws(#[trigger] placement_text(b, rank)[i]),
        placement_text(b, rank).len() > 0,
    decreases rank,
{
    lemma_rank_text(b, rank, 0, 0);
    let t = rank_text(b, rank, 0, 0);
    assert forall|j: int| 0 <= j < t.len() implies #[trigger] t[j] != '/' && !is_ws(t[j]) by {
        assert(rank_char_ok(t[j]));
    }
    if rank <= 0 {
        lemma_slash_fields_one(t);
    } else {
        lemma_placement_parts(b, rank - 1);
        let rest = placement_text(b, rank - 1);
        lemma_slash_fields_cons(t, rest);
        let whole = t + seq!['/'] + rest;
        assert forall|i: int| 0 <= i < whole.len() implies !is_ws(#[trigger] whole[i]) by {
            if i < t.len() {
                assert(whole[i] == t[i]);
            } else if i > t.len() {
                assert(whole[i] == rest[i - t.len() - 1]);
            }
        }
    }
}

/// The piece placement text of a board passes the placement checks.
proof fn lemma_placement_accepted(b: Board)
    ensures
        placement_error(placement_text(b, 7)) is None,
{
    lemma_placement_parts(b, 7);
    let ranks = rank_texts(b, 7);
    reveal_with_fuel(rank_texts, 8);
    assert(ranks.len() == 8);
    assert forall|i: int| 0 <= i < 8 implies #[trigger] ranks[i] == rank_text(b, 7 - i, 0, 0) by {
        reveal_with_fuel(rank_texts, 8);
    }
    assert forall|i: int| 0 <= i < 8 implies rank_error(#[trigger] ranks[i], 8 - i) is None by {
        lemma_rank_text(b, 7 - i, 0, 0);
        lemma_first_bad_none(ranks[i]);
    }
    lemma_ranks_error_tail(ranks, 0);
}

/// With no error in ranks `i..8`, the ranks from `i` on have no error.
proof fn lemma_ranks_error_tail(ranks: Seq<Seq<char>>, i: int)
    requires
        0 <= i <= 8,
        forall|j: int| i <= j < 8 ==> rank_error(#[trigger] ranks[j], 8 - j) is None,
    ensures
        ranks_error(ranks, i) is None,
    decreases 8 - i,
{
    if i < 8 {
        lemma_ranks_error_tail(ranks, i + 1);
    }
}

/// A flag above every flag seen is not among them, and adding it keeps the
/// flags seen below its double.
proof fn lemma_flag_free(seen: u8, f: u8)
    by (bit_vector)
    requires
        f == 1 || f == 2 || f == 4 || f == 8,
        seen < f,
    ensures
        seen & f == 0,
        (seen | f) < 2 * f,
{
}

/// Castling letters whose flags rise, all above the flags seen, hold no
/// error.
proof fn lemma_castling_scan_ok(c: Seq<char>, i: int, seen: u8)
    requires
        0 <= i <= c.len(),
        forall|j: int|
            i <= j < c.len() ==> (#[trigger] castling_letter_flag(c[j]) matches Some(f) && (f == 1 || f == 2 || f
                == 4 || f == 8)),
        forall|j: int, k: int|
            i <= j < k < c.len() ==> #[trigger] castling_letter_flag(c[j]).unwrap() < #[trigger] castling_letter_flag(
                c[k],
            ).unwrap(),
        i < c.len() ==> seen < castling_letter_flag(c[i]).unwrap(),
    ensures
        castling_scan(c, i, seen) is None,
    decreases c.len() - i,
{
    if i < c.len() {
        let f = castling_letter_flag(c[i]).unwrap();
        assert(castling_letter_flag(c[i]) matches Some(g) && (g == 1 || g == 2 || g == 4 || g == 8));
        lemma_flag_free(seen, f);
        if i + 1 < c.len() {
            assert(f < castling_letter_flag(c[i + 1]).unwrap());
            let g = castling_letter_flag(c[i + 1]).unwrap();
            assert(castling_letter_flag(c[i + 1]) matches Some(h) && (h == 1 || h == 2 || h == 4 || h == 8));
            assert(2 * f <= g);
        }
        lemma_castling_scan_ok(c, i + 1, seen | f);
    }
}

/// The castling field of a set of rights holds no error.
proof fn lemma_castling_accepted(r: CastlingRights)
    ensures
        castling_error(castling_text(r)) is None,
        castling_text(r).len() > 0,
        forall|j: int| 0 <= j < castling_text(r).len() ==> !is_ws(#[trigger] castling_text(r)[j]),
{
    let t = castling_text(r);
    if !(forall|k: bool, c: Color| !r.spec_has(k, c)) {
        let a = r.spec_has(true, Color::White);
        let bq = r.spec_has(false, Color::White);
        let c = r.spec_has(true, Color::Black);
        let d = r.spec_has(false, Color::Black);
        assert(a || bq || c || d) by {
            if !(a || bq || c || d) {
                assert forall|k: bool, cc: Color| !r.spec_has(k, cc) by {
                    match cc {
                        Color::White => {},
                        Color::Black => {},
                    }
                }
            }
        }
        let letters = seq!['K', 'Q', 'k', 'q'];
        let flags = seq![1u8, 2u8, 4u8, 8u8];
        // the text is the letters whose flag is set, in order
        assert forall|j: int|
            0 <= j < t.len() implies (#[trigger] castling_letter_flag(t[j]) matches Some(f) && (f == 1 || f == 2 || f
            == 4 || f == 8)) && !is_ws(t[j]) by {
            assert(t[j] == 'K' || t[j] == 'Q' || t[j] == 'k' || t[j] == 'q');
        }
        assert forall|j: int, k: int|
            0 <= j < k < t.len() implies #[trigger] castling_letter_flag(t[j]).unwrap() < #[trigger] castling_letter_flag(
            t[k],
        ).unwrap() by {
            let ta = if a { seq!['K'] } else { Seq::<char>::empty() };
            let tb = if bq { seq!['Q'] } else { Seq::<char>::empty() };
            let tc = if c { seq!['k'] } else { Seq::<char>::empty() };
            let td = if d { seq!['q'] } else { Seq::<char>::empty() };
            assert(t == ta + tb + tc + td);
            let la = ta.len() as int;
            let lb = la + tb.len();
            let lc = lb + tc.len();
            assert(j < la ==> t[j] == 'K');
            assert(la <= j < lb ==> t[j] == 'Q');
            assert(lb <= j < lc ==> t[j] == 'k');
            assert(lc <= j ==> t[j] == 'q');
            assert(k < la ==> t[k] == 'K');
            assert(la <= k < lb ==> t[k] == 'Q');
            assert(lb <= k < lc ==> t[k] == 'k');
            assert(lc <= k ==> t[k] == 'q');
        }
        lemma_castling_scan_ok(t, 0, 0);
        assert(t != seq!['-']) by {
            assert(t[0] != '-') by {
                assert(t[0] == 'K' || t[0] == 'Q' || t[0] == 'k' || t[0] == 'q');
            }
        }
    }
}

/// The decimal digits of a number read back as the number.
proof fn lemma_decimal(n: nat)
    ensures
        decimal(n).len() > 0,
        all_digits(decimal(n)),
        digits_value(decimal(n)) == n,
        forall|j: int| 0 <= j < decimal(n).len() ==> !is_ws(#[trigger] decimal(n)[j]),
    decreases n,
{
    if n < 10 {
        assert(digit_char(n as int) as int == n + 48);
        assert(decimal(n).drop_last() =~= Seq::<char>::empty());
        assert(digit_value(decimal(n).last()) == n);
        reveal_with_fuel(digits_value, 2);
    } else {
        lemma_decimal(n / 10);
        assert(digit_char((n % 10) as int) as int == n % 10 + 48);
        assert(decimal(n).drop_last() =~= decimal(n / 10));
        let d = decimal(n);
        assert(digit_value(d.last()) == n % 10);
        assert((n / 10) * 10 + n % 10 == n) by (nonlinear_arith);
        assert forall|j: int| 0 <= j < d.len() implies '0' <= #[trigger] d[j] <= '9' && !is_ws(d[j]) by {
            if j < decimal(n / 10).len() {
                assert(d[j] == decimal(n / 10)[j]);
            }
        }
    }
}

/// A number written in decimal reads back as the number.
proof fn lemma_decimal_parses(n: u32)
    ensures
        parse_u32_spec(decimal(n as nat)) == Some(n),
        decimal(n as nat).len() > 0,
        forall|j: int| 0 <= j < decimal(n as nat).len() ==> !is_ws(#[trigger] decimal(n as nat)[j]),
{
    lemma_decimal(n as nat);
    let d = decimal(n as nat);
    assert(d[0] != '+') by {
        assert('0' <= d[0] <= '9');
    }
}

/// Six tokens without whitespace joined by single spaces split back into
/// those six tokens.
proof fn lemma_six_fields(
    p: Seq<char>,
    c: Seq<char>,
    k: Seq<char>,
    e: Seq<char>,
    d1: Seq<char>,
    d2: Seq<char>,
)
    requires
        p.len() > 0 && c.len() > 0 && k.len() > 0 && e.len() > 0 && d1.len() > 0 && d2.len() > 0,
        forall|j: int| 0 <= j < p.len() ==> !is_ws(#[trigger] p[j]),
        forall|j: int| 0 <= j < c.len() ==> !is_ws(#[trigger] c[j]),
        forall|j: int| 0 <= j < k.len() ==> !is_ws(#[trigger] k[j]),
        forall|j: int| 0 <= j < e.len() ==> !is_ws(#[trigger] e[j]),
        forall|j: int| 0 <= j < d1.len() ==> !is_ws(#[trigger] d1[j]),
        forall|j: int| 0 <= j < d2.len() ==> !is_ws(#[trigger] d2[j]),
    ensures
        ws_fields(p + seq![' '] + c + seq![' '] + k + seq![' '] + e + seq![' '] + d1 + seq![' '] + d2) == seq![
            p,
            c,
            k,
            e,
            d1,
            d2,
        ],
{
    let sp = seq![' '];
    let r4 = d1 + sp + d2;
    let r3 = e + sp + r4;
    let r2 = k + sp + r3;
    let r1 = c + sp + r2;
    assert(p + sp + c + sp + k + sp + e + sp + d1 + sp + d2 =~= p + sp + r1);
    lemma_ws_fields_one(d2);
    lemma_ws_fields_cons(d1, d2);
    lemma_ws_fields_cons(e, r4);
    lemma_ws_fields_cons(k, r3);
    lemma_ws_fields_cons(c, r2);
    lemma_ws_fields_cons(p, r1);
    assert(seq![p] + (seq![c] + (seq![k] + (seq![e] + (seq![d1] + seq![d2]))))
        =~= seq![p, c, k, e, d1, d2]);
}

/// The FEN string of a well-formed board passes every check of a FEN
/// string: it has six fields, and each of them is accepted.
pub proof fn lemma_board_fen_accepted(b: Board)
    requires
        b.wf(),
    ensures
        ws_fields(board_fen(b)) == seq![
            placement_text(b, 7),
            seq![if b.spec_active() == Color::White { 'w' } else { 'b' }],
            castling_text(b.meta().castling_rights),
            match b.meta().en_passant_square {
                Some(x) => algebraic(x as int),
                None => seq!['-'],
            },
            decimal(b.meta().rule50 as nat),
            decimal((b.spec_halfmove() / 2 + 1) as nat),
        ],
        fen_error(board_fen(b)) is None,
{
    let m = b.meta();
    let p = placement_text(b, 7);
    let c = seq![if b.spec_active() == Color::White { 'w' } else { 'b' }];
    let k = castling_text(m.castling_rights);
    let e = match m.en_passant_square {
        Some(x) => algebraic(x as int),
        None => seq!['-'],
    };
    let fm: u32 = (b.spec_halfmove() / 2 + 1) as u32;
    let d1 = decimal(m.rule50 as nat);
    let d2 = decimal(fm as nat);
    assert(board_fen(b) == p + seq![' '] + c + seq![' '] + k + seq![' '] + e + seq![' '] + d1 + seq![' '] + d2);
    lemma_placement_parts(b, 7);
    lemma_placement_accepted(b);
    lemma_castling_accepted(m.castling_rights);
    lemma_decimal_parses(m.rule50);
    lemma_decimal_parses(fm);
    assert(forall|j: int| 0 <= j < c.len() ==> !is_ws(#[trigger] c[j]));
    b.lemma_meta_last();
    if let Some(x) = m.en_passant_square {
        assert(b.metas()[b.metas().len() - 1].en_passant_square == Some(x));
        lemma_square_name_round_trip(x as int);
    }
    assert(forall|j: int| 0 <= j < e.len() ==> !is_ws(#[trigger] e[j])) by {
        if let Some(x) = m.en_passant_square {
            assert(e[0] == crate::pieces::file_char(x as int));
            assert(e[1] == crate::pieces::rank_char(x as int));
        }
    }
    lemma_six_fields(p, c, k, e, d1, d2);
    assert(fm != 0);
}

/// Reading the same first `i` characters of a rank gives the same result.
proof fn lemma_rank_scan_prefix(s1: Seq<char>, s2: Seq<char>, row: int, i: int)
    requires
        0 <= i <= s1.len(),
        i <= s2.len(),
        forall|j: int| 0 <= j < i ==> s1[j] == s2[j],
    ensures
        rank_scan(s1, row, i) == rank_scan(s2, row, i),
    decreases i,
{
    if i > 0 {
        lemma_rank_scan_prefix(s1, s2, row, i - 1);
    }
}

/// Reading one more character after a text.
proof fn lemma_rank_scan_push(pre: Seq<char>, c: char, row: int)
    ensures
        rank_scan(pre.push(c), row, pre.len() + 1int) == ({
            let (ps, f) = rank_scan(pre, row, pre.len() as int);
            if is_rank_digit(c) {
                (ps, f + digit_value(c))
            } else {
                let (pt, color) = letter_piece(c);
                (ps.push((((7 - row) * 8 + f) as usize, pt, color)), f + 1)
            }
        }),
{
    lemma_rank_scan_prefix(pre.push(c), pre, row, pre.len() as int);
    assert(pre.push(c)[pre.len() as int] == c);
}

/// The FEN letter of a piece is a piece letter, no digit, and names the
/// piece back.
proof fn lemma_letter_piece(p: (PieceType, Color))
    ensures
        !is_rank_digit(fen_letter(p)),
        letter_piece(fen_letter(p)) == p,
{
    match p.1 {
        Color::White => {
            match p.0 {
                PieceType::Pawn => assert(fen_letter(p) == 'P'),
                PieceType::Knight => assert(fen_letter(p) == 'N'),
                PieceType::Bishop => assert(fen_letter(p) == 'B'),
                PieceType::Rook => assert(fen_letter(p) == 'R'),
                PieceType::Queen => assert(fen_letter(p) == 'Q'),
                PieceType::King => assert(fen_letter(p) == 'K'),
            }
        },
        Color::Black => {},
    }
}

/// A placement list with one more entry: that entry on its square, the
/// list before it elsewhere.
proof fn lemma_list_at_push(ps: Seq<(usize, PieceType, Color)>, x: (usize, PieceType, Color), sq: int)
    ensures
        list_at(ps.push(x), sq) == if x.0 == sq {
            Some((x.1, x.2))
        } else {
            list_at(ps, sq)
        },
{
    assert(ps.push(x).drop_last() =~= ps);
}

/// A square that no entry of a placement list names holds nothing there.
proof fn lemma_list_at_none(ps: Seq<(usize, PieceType, Color)>, sq: int)
    requires
        forall|a: int| 0 <= a < ps.len() ==> (#[trigger] ps[a]).0 != sq,
    ensures
        list_at(ps, sq) is None,
    decreases ps.len(),
{
    if ps.len() > 0 {
        assert(ps.last() == ps[ps.len() - 1]);
        assert forall|a: int| 0 <= a < ps.drop_last().len() implies (#[trigger] ps.drop_last()[a]).0 != sq by {
            assert(ps.drop_last()[a] == ps[a]);
        }
        lemma_list_at_none(ps.drop_last(), sq);
    }
}

/// Two placement lists one after the other: the later list where it names
/// the square, the earlier one elsewhere.
proof fn lemma_list_at_append(a: Seq<(usize, PieceType, Color)>, b: Seq<(usize, PieceType, Color)>, sq: int)
    ensures
        list_at(a + b, sq) == if list_at(b, sq) is Some {
            list_at(b, sq)
        } else {
            list_at(a, sq)
        },
    decreases b.len(),
{
    if b.len() == 0 {
        assert(a + b =~= a);
    } else {
        lemma_list_at_append(a, b.drop_last(), sq);
        assert((a + b).drop_last() =~= a + b.drop_last());
        assert((a + b).last() == b.last());
    }
}

/// Reading the FEN text of files `file..8` of rank `rank`, after a text
/// that has reached file `file - empties` and listed the pieces before it,
/// reaches the end of the rank with every piece of the rank on its square.
proof fn lemma_rank_read(b: Board, rank: int, file: int, empties: int, pre: Seq<char>)
    requires
        0 <= rank < 8,
        0 <= empties <= file <= 8,
        rank_scan(pre, 7 - rank, pre.len() as int).1 == file - empties,
        forall|a: int|
            0 <= a < rank_scan(pre, 7 - rank, pre.len() as int).0.len() ==> rank * 8 <= (#[trigger] rank_scan(
                pre,
                7 - rank,
                pre.len() as int,
            ).0[a]).0 < rank * 8 + file - empties,
        forall|f: int|
            0 <= f < file - empties ==> #[trigger] list_at(rank_scan(pre, 7 - rank, pre.len() as int).0, rank * 8 + f)
                == b.at(rank * 8 + f),
        forall|f: int| file - empties <= f < file ==> #[trigger] b.at(rank * 8 + f) is None,
    ensures
        ({
            let s = pre + rank_text(b, rank, file, empties);
            let r = rank_scan(s, 7 - rank, s.len() as int);
            &&& r.1 == 8
            &&& forall|a: int| 0 <= a < r.0.len() ==> rank * 8 <= (#[trigger] r.0[a]).0 < rank * 8 + 8
            &&& forall|f: int| 0 <= f < 8 ==> #[trigger] list_at(r.0, rank * 8 + f) == b.at(rank * 8 + f)
        }),
    decreases 8 - file,
{
    let row = 7 - rank;
    let (ps, f0) = rank_scan(pre, row, pre.len() as int);
    let pre1 = pre + empties_text(empties);
    // the pending empty squares are read as one digit
    assert(rank_scan(pre1, row, pre1.len() as int) == (ps, file)) by {
        if empties > 0 {
            assert(pre1 =~= pre.push(digit_char(empties)));
            lemma_rank_scan_push(pre, digit_char(empties), row);
            assert(digit_char(empties) as int == empties + 48);
        } else {
            assert(pre1 =~= pre);
        }
    }
    assert forall|f: int| file - empties <= f < 8 implies #[trigger] list_at(ps, rank * 8 + f) is None by {
        lemma_list_at_none(ps, rank * 8 + f);
    }
    if file >= 8 {
        assert(pre + rank_text(b, rank, file, empties) == pre1);
    } else {
        match b.at(rank * 8 + file) {
            Some(p) => {
                let c = fen_letter(p);
                let pre2 = pre1.push(c);
                lemma_letter_piece(p);
                lemma_rank_scan_push(pre1, c, row);
                let x = ((rank * 8 + file) as usize, p.0, p.1);
                let ps2 = ps.push(x);
                assert(rank_scan(pre2, row, pre2.len() as int) == (ps2, file + 1));
                assert forall|a: int| 0 <= a < ps2.len() implies rank * 8 <= (#[trigger] ps2[a]).0 < rank * 8 + file
                    + 1 by {
                    if a < ps.len() {
                        assert(ps2[a] == ps[a]);
                    }
                }
                assert forall|f: int| 0 <= f < file + 1 implies #[trigger] list_at(ps2, rank * 8 + f) == b.at(
                    rank * 8 + f,
                ) by {
                    lemma_list_at_push(ps, x, rank * 8 + f);
                }
                lemma_rank_read(b, rank, file + 1, 0, pre2);
                assert(pre + rank_text(b, rank, file, empties) =~= pre2 + rank_text(b, rank, file + 1, 0));
            },
            None => {
                lemma_rank_read(b, rank, file + 1, empties + 1, pre);
            },
        }
    }
}

/// Reading the first `k` ranks of a board's piece placement text lists the
/// pieces of its top `k` ranks on their squares, and nothing below.
proof fn lemma_placement_read(b: Board, k: int)
    requires
        0 <= k <= 8,
    ensures
        forall|sq: int|
            0 <= sq < 64 ==> #[trigger] list_at(placement_upto(rank_texts(b, 7), k), sq) == if sq >= (8 - k) * 8 {
                b.at(sq)
            } else {
                None
            },
        forall|a: int|
            0 <= a < placement_upto(rank_texts(b, 7), k).len() ==> (8 - k) * 8 <= (#[trigger] placement_upto(
                rank_texts(b, 7),
                k,
            )[a]).0 < 64,
    decreases k,
{
    let ranks = rank_texts(b, 7);
    if k > 0 {
        lemma_placement_read(b, k - 1);
        let rank = 8 - k;
        assert(ranks[k - 1] == rank_text(b, rank, 0, 0)) by {
            reveal_with_fuel(rank_texts, 8);
        }
        let t = rank_text(b, rank, 0, 0);
        lemma_rank_read(b, rank, 0, 0, Seq::<char>::empty());
        assert(Seq::<char>::empty() + t =~= t);
        let a = placement_upto(ranks, k - 1);
        let add = rank_scan(t, k - 1, t.len() as int).0;
        assert(placement_upto(ranks, k) == a + add);
        assert forall|sq: int| 0 <= sq < 64 implies #[trigger] list_at(placement_upto(ranks, k), sq) == if sq >= (8
            - k) * 8 {
            b.at(sq)
        } else {
            None
        } by {
            lemma_list_at_append(a, add, sq);
            if sq < rank * 8 || sq >= rank * 8 + 8 {
                lemma_list_at_none(add, sq);
            } else {
                assert(list_at(add, rank * 8 + (sq - rank * 8)) == b.at(rank * 8 + (sq - rank * 8)));
            }
        }
        assert forall|i: int| 0 <= i < placement_upto(ranks, k).len() implies (8 - k) * 8 <= (
        #[trigger] placement_upto(ranks, k)[i]).0 < 64 by {
            if i < a.len() {
                assert((a + add)[i] == a[i]);
            } else {
                assert((a + add)[i] == add[i - a.len()]);
            }
        }
    }
}

/// A placement list with no entry of a piece counts none of it.
proof fn lemma_count_none(ps: Seq<(usize, PieceType, Color)>, pt: PieceType, c: Color)
    requires
        forall|a: int| 0 <= a < ps.len() ==> !((#[trigger] ps[a]).1 == pt && ps[a].2 == c),
    ensures
        list_count(ps, pt, c) == 0,
    decreases ps.len(),
{
    if ps.len() > 0 {
        assert(ps.last() == ps[ps.len() - 1]);
        let d = ps.drop_last();
        assert forall|a: int| 0 <= a < d.len() implies !((#[trigger] d[a]).1 == pt && d[a].2 == c) by {
            assert(d[a] == ps[a]);
        }
        lemma_count_none(d, pt, c);
    }
}

/// A placement list on distinct squares, with an entry of a piece and all
/// its entries of that piece on one square, counts one of it.
proof fn lemma_count_one(ps: Seq<(usize, PieceType, Color)>, pt: PieceType, c: Color, k: int)
    requires
        forall|a: int, b: int| 0 <= a < b < ps.len() ==> (#[trigger] ps[a]).0 != (#[trigger] ps[b]).0,
        forall|a: int| 0 <= a < ps.len() && (#[trigger] ps[a]).1 == pt && ps[a].2 == c ==> ps[a].0 == k,
        exists|a: int| 0 <= a < ps.len() && (#[trigger] ps[a]).1 == pt && ps[a].2 == c,
    ensures
        list_count(ps, pt, c) == 1,
    decreases ps.len(),
{
    let n = ps.len() - 1;
    let l = ps.last();
    let d = ps.drop_last();
    assert(l == ps[n]);
    if l.1 == pt && l.2 == c {
        assert forall|a: int| 0 <= a < d.len() implies !((#[trigger] d[a]).1 == pt && d[a].2 == c) by {
            assert(d[a] == ps[a]);
            assert(ps[a].0 != ps[n].0);
        }
        lemma_count_none(d, pt, c);
    } else {
        let w = choose|a: int| 0 <= a < ps.len() && (#[trigger] ps[a]).1 == pt && ps[a].2 == c;
        assert(w < n);
        assert(d[w] == ps[w]);
        assert forall|a: int, b: int| 0 <= a < b < d.len() implies (#[trigger] d[a]).0 != (#[trigger] d[b]).0 by {
            assert(d[a] == ps[a]);
            assert(d[b] == ps[b]);
        }
        assert forall|a: int| 0 <= a < d.len() && (#[trigger] d[a]).1 == pt && d[a].2 == c implies d[a].0 == k by {
            assert(d[a] == ps[a]);
        }
        lemma_count_one(d, pt, c, k);
    }
}

/// An entry of a placement list on distinct squares is what the list
/// holds on its square.
proof fn lemma_list_at_entry(ps: Seq<(usize, PieceType, Color)>, a: int)
    requires
        forall|i: int, j: int| 0 <= i < j < ps.len() ==> (#[trigger] ps[i]).0 != (#[trigger] ps[j]).0,
        0 <= a < ps.len(),
    ensures
        list_at(ps, ps[a].0 as int) == Some((ps[a].1, ps[a].2)),
    decreases ps.len(),
{
    let n = ps.len() - 1;
    assert(ps.last() == ps[n]);
    if a < n {
        let d = ps.drop_last();
        assert(d[a] == ps[a]);
        assert(ps[a].0 != ps[n].0);
        assert forall|i: int, j: int| 0 <= i < j < d.len() implies (#[trigger] d[i]).0 != (#[trigger] d[j]).0 by {
            assert(d[i] == ps[i]);
            assert(d[j] == ps[j]);
        }
        lemma_list_at_entry(d, a);
    }
}

/// A square that a placement list holds is named by one of its entries.
proof fn lemma_list_at_some(ps: Seq<(usize, PieceType, Color)>, sq: int)
    requires
        list_at(ps, sq) is Some,
    ensures
        exists|a: int|
            0 <= a < ps.len() && (#[trigger] ps[a]).0 == sq && (ps[a].1, ps[a].2) == list_at(ps, sq).unwrap(),
    decreases ps.len(),
{
    let n = ps.len() - 1;
    assert(ps.last() == ps[n]);
    if ps.last().0 != sq {
        let d = ps.drop_last();
        lemma_list_at_some(d, sq);
        let w = choose|a: int|
            0 <= a < d.len() && (#[trigger] d[a]).0 == sq && (d[a].1, d[a].2) == list_at(d, sq).unwrap();
        assert(d[w] == ps[w]);
    }
}

/// A placement list on distinct squares that holds what a board holds on
/// every square counts one king of a color that has one king on the board.
proof fn lemma_king_count(b: Board, ps: Seq<(usize, PieceType, Color)>, c: Color)
    requires
        list_valid(ps),
        forall|sq: int| 0 <= sq < 64 ==> #[trigger] list_at(ps, sq) == b.at(sq),
        b.one_king(c),
    ensures
        list_count(ps, PieceType::King, c) == 1,
{
    let k = choose|k: int| is_square(k) && #[trigger] b.at(k) == Some((PieceType::King, c));
    assert(list_at(ps, k) == b.at(k));
    lemma_list_at_some(ps, k);
    assert forall|a: int|
        0 <= a < ps.len() && (#[trigger] ps[a]).1 == PieceType::King && ps[a].2 == c implies ps[a].0 == k by {
        lemma_list_at_entry(ps, a);
        let s = ps[a].0 as int;
        assert(list_at(ps, s) == b.at(s));
        assert(b.at(s) == Some((PieceType::King, c)));
        assert(b.at(k) == Some((PieceType::King, c)));
    }
    lemma_count_one(ps, PieceType::King, c, k);
}

/// Reading one more castling letter.
proof fn lemma_rights_push(x: Seq<char>, l: char)
    ensures
        rights_from(x.push(l)) == if l == 'K' {
            rights_from(x).spec_set(true, Color::White, true)
        } else if l == 'Q' {
            rights_from(x).spec_set(false, Color::White, true)
        } else if l == 'k' {
            rights_from(x).spec_set(true, Color::Black, true)
        } else if l == 'q' {
            rights_from(x).spec_set(false, Color::Black, true)
        } else {
            rights_from(x)
        },
{
    assert(x.push(l).drop_last() =~= x);
}

/// Reading a castling letter, when the rights read so far are those of
/// `before`, gives `before` with that right added.
proof fn lemma_rights_step(x: Seq<char>, l: char, kingside: bool, color: Color)
    requires
        castling_letter_flag(l) is Some,
        kingside == (l == 'K' || l == 'k'),
        color == if l == 'K' || l == 'Q' {
            Color::White
        } else {
            Color::Black
        },
    ensures
        forall|k: bool, c: Color|
            #[trigger] rights_from(x.push(l)).spec_has(k, c) == (rights_from(x).spec_has(k, c) || (k == kingside
                && c == color)),
{
    lemma_rights_push(x, l);
    rights_from(x).lemma_spec_set(kingside, color, true);
}

/// The castling field of a set of rights reads back as the same rights.
proof fn lemma_rights_read(r: CastlingRights)
    ensures
        forall|k: bool, c: Color| #[trigger] rights_from(castling_text(r)).spec_has(k, c) == r.spec_has(k, c),
{
    CastlingRights::lemma_spec_none();
    let x0 = Seq::<char>::empty();
    assert(rights_from(x0) == CastlingRights::spec_none());
    if forall|k: bool, c: Color| !r.spec_has(k, c) {
        lemma_rights_push(x0, '-');
        assert(castling_text(r) =~= x0.push('-'));
    } else {
        let a = r.spec_has(true, Color::White);
        let bq = r.spec_has(false, Color::White);
        let c1 = r.spec_has(true, Color::Black);
        let d = r.spec_has(false, Color::Black);
        let x1 = if a { x0.push('K') } else { x0 };
        let x2 = if bq { x1.push('Q') } else { x1 };
        let x3 = if c1 { x2.push('k') } else { x2 };
        let x4 = if d { x3.push('q') } else { x3 };
        assert(castling_text(r) =~= x4);
        if a {
            lemma_rights_step(x0, 'K', true, Color::White);
        }
        if bq {
            lemma_rights_step(x1, 'Q', false, Color::White);
        }
        if c1 {
            lemma_rights_step(x2, 'k', true, Color::Black);
        }
        if d {
            lemma_rights_step(x3, 'q', false, Color::Black);
        }
        assert forall|k: bool, c: Color| #[trigger] rights_from(x4).spec_has(k, c) == r.spec_has(k, c) by {
            assert(rights_from(x0).spec_has(k, c) == false);
            assert(rights_from(x1).spec_has(k, c) == (a && k && c == Color::White));
            assert(rights_from(x2).spec_has(k, c) == ((a && k && c == Color::White) || (bq && !k && c
                == Color::White)));
            assert(rights_from(x3).spec_has(k, c) == ((a && k && c == Color::White) || (bq && !k && c
                == Color::White) || (c1 && k && c == Color::Black)));
            match c {
                Color::White => {},
                Color::Black => {},
            }
        }
    }
}

/// Writing a board as a FEN string and reading the string back gives the
/// same position. The string passes every check of a FEN string, the
/// position it describes passes every check of a new board, and it has the
/// same pieces on the same squares, the same side to move and move number,
/// the same castling rights, en passant square and fifty-move counter.
pub proof fn lemma_fen_round_trip(b: Board)
    requires
        b.valid(),
        b.one_king(Color::White),
        b.one_king(Color::Black),
    ensures
        ({
            let f = ws_fields(board_fen(b));
            &&& fen_error(board_fen(b)) is None
            &&& new_error_of(f) is None
            &&& forall|sq: int| is_square(sq) ==> #[trigger] list_at(placement_pieces(f[0]), sq) == b.at(sq)
            &&& (if f[1] == seq!['w'] {
                Color::White
            } else {
                Color::Black
            }) == b.spec_active()
            &&& halfmove_of(f) == b.spec_halfmove()
            &&& forall|k: bool, c: Color|
                #[trigger] rights_from(f[2]).spec_has(k, c) == b.meta().castling_rights.spec_has(k, c)
            &&& en_passant_of(f[3]) == b.meta().en_passant_square
            &&& parse_u32_spec(f[4]) == Some(b.meta().rule50)
        }),
{
    let m = b.meta();
    let h = b.spec_halfmove();
    let fm: u32 = (h / 2 + 1) as u32;
    lemma_board_fen_accepted(b);
    let f = ws_fields(board_fen(b));
    // the pieces
    let ranks = rank_texts(b, 7);
    lemma_placement_parts(b, 7);
    lemma_placement_accepted(b);
    assert(ranks.len() == 8) by {
        reveal_with_fuel(rank_texts, 8);
    }
    let pieces = placement_pieces(f[0]);
    assert(pieces == placement_upto(ranks, 8));
    lemma_placement_read(b, 8);
    lemma_placement_valid(ranks, 8);
    assert forall|sq: int| is_square(sq) implies #[trigger] list_at(pieces, sq) == b.at(sq) by {}
    lemma_king_count(b, pieces, Color::White);
    lemma_king_count(b, pieces, Color::Black);
    // the castling rights
    lemma_rights_read(m.castling_rights);
    let rights = rights_from(f[2]);
    assert forall|k: bool, c: Color| #[trigger] rights.spec_has(k, c) implies right_backed(pieces, k, c) by {
        assert(m.castling_rights.spec_has(k, c));
        assert(list_at(pieces, king_home(c)) == b.at(king_home(c)));
        assert(list_at(pieces, rook_home(k, c)) == b.at(rook_home(k, c)));
    }
    // the move number
    lemma_decimal_parses(fm);
    lemma_decimal_parses(m.rule50);
    assert(f[5] == decimal(fm as nat));
    assert(parse_u32_spec(f[5]) == Some(fm));
    assert(f[1] == seq!['w'] <==> b.spec_active() == Color::White) by {
        if b.spec_active() != Color::White {
            assert(f[1][0] == 'b');
        }
    }
    assert(2 * (fm - 1) + h % 2 == h);
    assert(halfmove_of(f) == h);
    // the en passant square
    b.lemma_meta_last();
    assert(m.rule50 <= h) by {
        assert(b.metas()[b.metas().len() - 1].rule50 + (b.metas().len() - 1 - (b.metas().len() - 1)) <= h);
    }
    if let Some(e) = m.en_passant_square {
        assert(b.metas()[b.metas().len() - 1].en_passant_square == Some(e));
        lemma_square_name_round_trip(e as int);
        let t = algebraic(e as int);
        assert(t[0] == crate::pieces::file_char(e as int));
        assert(t != seq!['-']);
        assert(en_passant_of(f[3]) == Some(e));
        assert(b.en_passant_ok(e as int));
        assert(list_at(pieces, e as int) == b.at(e as int));
        assert(list_at(pieces, e + 8) == b.at(e + 8));
        assert(list_at(pieces, e - 8) == b.at(e - 8));
        assert(en_passant_backed(pieces, e as int, b.spec_active()));
    }
    assert(new_error_of(f) is None);
}

/// The FEN text of a rank depends only on the pieces of the board.
proof fn lemma_rank_text_same(a: Board, b: Board, rank: int, file: int, empties: int)
    requires
        forall|sq: int| is_square(sq) ==> #[trigger] a.at(sq) == b.at(sq),
        0 <= rank < 8,
        0 <= file <= 8,
    ensures
        rank_text(a, rank, file, empties) == rank_text(b, rank, file, empties),
    decreases 8 - file,
{
    if file < 8 {
        assert(a.at(rank * 8 + file) == b.at(rank * 8 + file));
        lemma_rank_text_same(a, b, rank, file + 1, 0);
        lemma_rank_text_same(a, b, rank, file + 1, empties + 1);
    }
}

/// The piece placement text depends only on the pieces of the board.
proof fn lemma_placement_text_same(a: Board, b: Board, rank: int)
    requires
        forall|sq: int| is_square(sq) ==> #[trigger] a.at(sq) == b.at(sq),
        0 <= rank < 8,
    ensures
        placement_text(a, rank) == placement_text(b, rank),
    decreases rank,
{
    lemma_rank_text_same(a, b, rank, 0, 0);
    if rank > 0 {
        lemma_placement_text_same(a, b, rank - 1);
    }
}

/// Reading the FEN string of a board and writing the board read gives the
/// same string back, and the board read holds the same pieces, side to
/// move, move number, castling rights, en passant square and fifty-move
/// counter.
pub proof fn lemma_fen_text_round_trip(b: Board, b2: Board)
    requires
        b.valid(),
        b.one_king(Color::White),
        b.one_king(Color::Black),
        fen_board(board_fen(b), b2),
    ensures
        board_fen(b2) == board_fen(b),
        forall|sq: int| is_square(sq) ==> #[trigger] b2.at(sq) == b.at(sq),
        b2.spec_active() == b.spec_active(),
        b2.spec_halfmove() == b.spec_halfmove(),
        forall|k: bool, c: Color|
            #[trigger] b2.meta().castling_rights.spec_has(k, c) == b.meta().castling_rights.spec_has(k, c),
        b2.meta().en_passant_square == b.meta().en_passant_square,
        b2.meta().rule50 == b.meta().rule50,
{
    lemma_fen_round_trip(b);
    let f = ws_fields(board_fen(b));
    assert forall|sq: int| is_square(sq) implies #[trigger] b2.at(sq) == b.at(sq) by {
        assert(b2.at(sq) == list_at(placement_pieces(f[0]), sq));
    }
    lemma_placement_text_same(b2, b, 7);
    let r2 = b2.meta().castling_rights;
    let r = b.meta().castling_rights;
    assert forall|k: bool, c: Color| #[trigger] r2.spec_has(k, c) == r.spec_has(k, c) by {
        assert(rights_from(f[2]).spec_has(k, c) == r.spec_has(k, c));
    }
    assert(castling_text(r2) == castling_text(r));
    assert(b2.meta().rule50 == b.meta().rule50);
    assert(board_fen(b2) =~= board_fen(b));
}

} // verus!
