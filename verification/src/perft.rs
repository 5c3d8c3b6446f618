use vstd::prelude::*;
use crate::bitboard::{file_of, is_square, rank_of};
use crate::board::{clear_right, revoke_rights, Board};
use crate::movegen::{
    appended_has, distinct_from, legal_move_set, move_group, lemma_legal_count, lemma_same_position_refl, lemma_same_position_trans,
};
use crate::pieces::{CastlingRights, Color, Move, MoveType, PieceType};

verus! {

/// The modulus of 64-bit wraparound.
pub open spec fn wrap() -> int {
    0x1_0000_0000_0000_0000
}

/// How many moves the numbering of moves counts: 64 origins, 64
/// destinations and eight kinds of move.
pub open spec fn move_count() -> int {
    32768
}

/// The kind of move numbered `k`, for a move from `from` to `to`.
pub open spec fn kind_of(k: int, from: int, to: int) -> MoveType {
    if k == 0 {
        MoveType::Regular
    } else if k == 1 {
        MoveType::Castling(true)
    } else if k == 2 {
        MoveType::Castling(false)
    } else if k == 3 {
        MoveType::EnPassant((8 * rank_of(from) + file_of(to)) as u8)
    } else if k == 4 {
        MoveType::Promotion(PieceType::Knight)
    } else if k == 5 {
        MoveType::Promotion(PieceType::Bishop)
    } else if k == 6 {
        MoveType::Promotion(PieceType::Rook)
    } else {
        MoveType::Promotion(PieceType::Queen)
    }
}

/// The number of a kind of move; 8 for a promotion that no legal move makes.
pub open spec fn kind_number(t: MoveType) -> int {
    match t {
        MoveType::Regular => 0,
        MoveType::Castling(kingside) => if kingside {
            1
        } else {
            2
        },
        MoveType::EnPassant(_) => 3,
        MoveType::Promotion(p) => match p {
            PieceType::Knight => 4,
            PieceType::Bishop => 5,
            PieceType::Rook => 6,
            PieceType::Queen => 7,
            _ => 8,
        },
    }
}

/// The move numbered `i`.
pub open spec fn nth_move(i: int) -> Move {
    let from = i / 512;
    let to = (i / 8) % 64;
    Move { from: from as u8, to: to as u8, move_type: kind_of(i % 8, from, to) }
}

/// The number of a move.
pub open spec fn move_number(mv: Move) -> int {
    mv.from * 512 + mv.to * 8 + kind_number(mv.move_type)
}

/// A move that the numbering counts.
pub open spec fn numbered(mv: Move) -> bool {
    &&& mv.from < 64
    &&& mv.to < 64
    &&& kind_number(mv.move_type) < 8
    &&& (mv.move_type matches MoveType::EnPassant(t) ==> t == 8 * rank_of(mv.from as int) + file_of(mv.to as int))
}

proof fn lemma_split(i: int, f: int, t: int, k: int)
    by (nonlinear_arith)
    requires
        0 <= f < 64,
        0 <= t < 64,
        0 <= k < 8,
        i == f * 512 + t * 8 + k,
    ensures
        i / 512 == f,
        (i / 8) % 64 == t,
        i % 8 == k,
        0 <= i < 32768,
{
}

proof fn lemma_join(i: int)
    by (nonlinear_arith)
    requires
        0 <= i < 32768,
    ensures
        0 <= i / 512 < 64,
        0 <= (i / 8) % 64 < 64,
        0 <= i % 8 < 8,
        i == (i / 512) * 512 + ((i / 8) % 64) * 8 + i % 8,
{
}

/// A numbered move is the move of its number.
proof fn lemma_numbered(mv: Move)
    requires
        numbered(mv),
    ensures
        0 <= move_number(mv) < move_count(),
        nth_move(move_number(mv)) == mv,
{
    lemma_split(move_number(mv), mv.from as int, mv.to as int, kind_number(mv.move_type));
    let m = nth_move(move_number(mv));
    assert(m.from == mv.from);
    assert(m.to == mv.to);
    match mv.move_type {
        MoveType::Promotion(p) => {
            match p {
                PieceType::Knight => {},
                PieceType::Bishop => {},
                PieceType::Rook => {},
                PieceType::Queen => {},
                _ => {},
            }
        },
        MoveType::Castling(kingside) => {},
        MoveType::EnPassant(t) => {
            assert(t == 8 * rank_of(mv.from as int) + file_of(mv.to as int));
        },
        MoveType::Regular => {},
    }
}

/// Each number counts a numbered move, the one it names.
proof fn lemma_numbers(i: int)
    requires
        0 <= i < move_count(),
    ensures
        numbered(nth_move(i)),
        move_number(nth_move(i)) == i,
{
    lemma_join(i);
    let from = i / 512;
    let to = (i / 8) % 64;
    assert(8 * rank_of(from) + file_of(to) < 64) by (nonlinear_arith)
        requires
            0 <= from < 64,
            0 <= to < 64,
    ;
}

/// A legal move is numbered.
proof fn lemma_legal_numbered(b: Board, mv: Move)
    requires
        b.is_legal(mv),
    ensures
        numbered(mv),
{
    assert(is_square(mv.from as int) && is_square(mv.to as int));
    match mv.move_type {
        MoveType::Promotion(p) => {
            match p {
                PieceType::Pawn => {},
                PieceType::King => {},
                _ => {},
            }
        },
        _ => {},
    }
}

/// Two boards hold the same pieces, side to move, castling rights and en
/// passant square: the same play follows from both.
pub open spec fn same_play(a: Board, b: Board) -> bool {
    &&& a.wf()
    &&& b.wf()
    &&& forall|sq: int| #[trigger] a.at(sq) == b.at(sq)
    &&& a.spec_active() == b.spec_active()
    &&& a.meta().castling_rights == b.meta().castling_rights
    &&& a.meta().en_passant_square == b.meta().en_passant_square
}

/// `mv` leads from a board holding the same play as `b` to `a`.
pub open spec fn leads_to(b: Board, mv: Move, a: Board) -> bool {
    exists|x: Board| same_play(x, b) && #[trigger] Board::made(x, mv, a)
}

/// `mv` leads from `b` to some board.
pub open spec fn has_child(b: Board, mv: Move) -> bool {
    exists|a: Board| #[trigger] leads_to(b, mv, a)
}

/// A board that `mv` leads to from `b`.
pub open spec fn child(b: Board, mv: Move) -> Board {
    choose|a: Board| leads_to(b, mv, a)
}

/// The number of leaves of the tree of legal moves `depth` plies deep
/// below `b`: one at depth 0, and otherwise the sum, over the legal moves,
/// of the leaves below the board each leads to.
pub open spec fn perft_count(b: Board, depth: nat) -> nat
    decreases depth, 32769int,
{
    if depth == 0 {
        1
    } else {
        perft_sum(b, depth, 32768)
    }
}

/// The leaves below the first `n` numbered moves of `b`, `depth` plies deep.
pub open spec fn perft_sum(b: Board, depth: nat, n: int) -> nat
    decreases depth, n,
{
    if depth == 0 || n <= 0 {
        0
    } else {
        perft_sum(b, depth, n - 1) + if b.is_legal(nth_move(n - 1)) && has_child(b, nth_move(n - 1)) {
            perft_count(child(b, nth_move(n - 1)), (depth - 1) as nat)
        } else {
            0
        }
    }
}

/// The leaves below one move of `b`.
pub open spec fn perft_term(b: Board, depth: nat, mv: Move) -> nat {
    if depth > 0 && b.is_legal(mv) && has_child(b, mv) {
        perft_count(child(b, mv), (depth - 1) as nat)
    } else {
        0
    }
}

/// The leaves below the moves of `done` among the first `n` numbered moves.
pub open spec fn done_sum(b: Board, depth: nat, done: Set<Move>, n: int) -> nat
    decreases n,
{
    if n <= 0 {
        0
    } else {
        done_sum(b, depth, done, n - 1) + if done.contains(nth_move(n - 1)) {
            perft_term(b, depth, nth_move(n - 1))
        } else {
            0
        }
    }
}

/// Adding a numbered move to the moves done adds its leaves.
proof fn lemma_done_sum_insert(b: Board, depth: nat, done: Set<Move>, y: Move, n: int)
    requires
        !done.contains(y),
        numbered(y),
        0 <= n <= move_count(),
    ensures
        done_sum(b, depth, done.insert(y), n) == done_sum(b, depth, done, n) + if move_number(y) < n {
            perft_term(b, depth, y)
        } else {
            0
        },
    decreases n,
{
    if n > 0 {
        lemma_done_sum_insert(b, depth, done, y, n - 1);
        lemma_numbers(n - 1);
        lemma_numbered(y);
        if nth_move(n - 1) == y {
            assert(move_number(y) == n - 1);
        } else {
            assert(move_number(y) != n - 1);
        }
    }
}

/// No moves done, no leaves.
proof fn lemma_done_sum_empty(b: Board, depth: nat, n: int)
    ensures
        done_sum(b, depth, Set::empty(), n) == 0,
    decreases n,
{
    if n > 0 {
        lemma_done_sum_empty(b, depth, n - 1);
    }
}

/// With every legal move done, the leaves are those of the whole tree.
proof fn lemma_done_sum_all(b: Board, depth: nat, done: Set<Move>, n: int)
    requires
        depth > 0,
        forall|mv: Move| #[trigger] done.contains(mv) <==> b.is_legal(mv),
    ensures
        done_sum(b, depth, done, n) == perft_sum(b, depth, n),
    decreases n,
{
    if n > 0 {
        lemma_done_sum_all(b, depth, done, n - 1);
        assert(done.contains(nth_move(n - 1)) == b.is_legal(nth_move(n - 1)));
    }
}

/// Holding the same play is symmetric and transitive.
proof fn lemma_same_play_laws()
    ensures
        forall|a: Board, b: Board| #[trigger] same_play(a, b) ==> same_play(b, a),
        forall|a: Board, b: Board, c: Board|
            #[trigger] same_play(a, b) && #[trigger] same_play(b, c) ==> same_play(a, c),
{
}

/// Boards holding the same play agree on which moves are legal.
proof fn lemma_same_play_legal(a: Board, b: Board)
    requires
        same_play(a, b),
    ensures
        forall|mv: Move| #[trigger] a.is_legal(mv) == b.is_legal(mv),
{
    assert(a.placement() =~= b.placement());
    assert(a.ignoring_king() =~= b.ignoring_king());
    assert(a.occupied() =~= b.occupied());
    assert forall|mv: Move| #[trigger] a.after(mv) =~= b.after(mv) by {}
    assert forall|mv: Move| #[trigger] a.is_legal(mv) == b.is_legal(mv) by {
        assert(a.after(mv) == b.after(mv));
        match mv.move_type {
            MoveType::Regular => {
                let from = mv.from as int;
                if let Some((p, c)) = a.at(from) {
                    assert(a.occupied() == b.occupied());
                }
            },
            _ => {},
        }
    }
}

/// A move made on boards holding the same play leads to boards holding the
/// same play.
proof fn lemma_made_same_play(x1: Board, x2: Board, mv: Move, c1: Board, c2: Board)
    requires
        same_play(x1, x2),
        Board::made(x1, mv, c1),
        Board::made(x2, mv, c2),
    ensures
        same_play(c1, c2),
{
    c1.lemma_meta_last();
    c2.lemma_meta_last();
    x1.lemma_meta_last();
    x2.lemma_meta_last();
    assert(c1.meta() == x1.spec_make_meta(mv));
    assert(c2.meta() == x2.spec_make_meta(mv));
    lemma_make_meta_play(x1, x2, mv);
    assert forall|sq: int| #[trigger] c1.at(sq) == c2.at(sq) by {
        if is_square(sq) {
            assert(c1.at(sq) == x1.after_at(mv, sq));
            assert(c2.at(sq) == x2.after_at(mv, sq));
        }
    }
}

/// Clearing a castling right depends on the rights alone, not the hash.
proof fn lemma_revoke_rights_play(s1: (CastlingRights, u64), s2: (CastlingRights, u64), p: PieceType, sq: int)
    requires
        s1.0 == s2.0,
    ensures
        revoke_rights(s1, p, sq).0 == revoke_rights(s2, p, sq).0,
{
    assert forall|a: (CastlingRights, u64), b: (CastlingRights, u64), k: bool, c: Color|
        a.0 == b.0 implies #[trigger] clear_right(a, k, c).0 == #[trigger] clear_right(b, k, c).0 by {}
}

/// The castling rights and en passant square after a move depend on the
/// play alone.
proof fn lemma_make_meta_play(x1: Board, x2: Board, mv: Move)
    requires
        same_play(x1, x2),
    ensures
        x1.spec_make_meta(mv).castling_rights == x2.spec_make_meta(mv).castling_rights,
        x1.spec_make_meta(mv).en_passant_square == x2.spec_make_meta(mv).en_passant_square,
{
    reveal(Board::spec_make_meta);
    let m1 = x1.meta();
    let m2 = x2.meta();
    let from = mv.from as int;
    let to = mv.to as int;
    let z1 = m1.zobrist ^ crate::zobrist::spec_color();
    let z2 = m2.zobrist ^ crate::zobrist::spec_color();
    assert(x1.type_at(from) == x2.type_at(from));
    assert(x1.type_at(to) == x2.type_at(to));
    match mv.move_type {
        MoveType::Regular => {
            let moving = x1.type_at(from).unwrap();
            lemma_revoke_rights_play((m1.castling_rights, z1), (m2.castling_rights, z2), moving, from);
            let r1 = revoke_rights((m1.castling_rights, z1), moving, from);
            let r2 = revoke_rights((m2.castling_rights, z2), moving, from);
            if let Some(cp) = x1.type_at(to) {
                assert forall|za: u64, zb: u64| #[trigger] revoke_rights((r1.0, za), cp, to).0 == #[trigger] revoke_rights(
                    (r2.0, zb),
                    cp,
                    to,
                ).0 by {
                    lemma_revoke_rights_play((r1.0, za), (r2.0, zb), cp, to);
                }
            }
        },
        MoveType::Promotion(_) => {
            if let Some(cp) = x1.type_at(to) {
                assert forall|za: u64, zb: u64| #[trigger] revoke_rights((m1.castling_rights, za), cp, to).0
                    == #[trigger] revoke_rights((m2.castling_rights, zb), cp, to).0 by {
                    lemma_revoke_rights_play((m1.castling_rights, za), (m2.castling_rights, zb), cp, to);
                }
            }
        },
        MoveType::EnPassant(_) => {},
        MoveType::Castling(kingside) => {
            let c = x1.spec_active();
            assert forall|a: (CastlingRights, u64), b: (CastlingRights, u64), k: bool, cc: Color|
                a.0 == b.0 implies #[trigger] clear_right(a, k, cc).0 == #[trigger] clear_right(b, k, cc).0 by {}
            assert(clear_right((m1.castling_rights, z1), true, c).0 == clear_right((m2.castling_rights, z2), true, c).0);
        },
    }
}


/// Boards holding the same play lead by a move to boards holding the same
/// play.
proof fn lemma_child_congruent(a: Board, b: Board, mv: Move)
    requires
        same_play(a, b),
    ensures
        has_child(a, mv) == has_child(b, mv),
        has_child(a, mv) ==> same_play(child(a, mv), child(b, mv)),
{
    lemma_same_play_laws();
    if has_child(a, mv) {
        let c = choose|c: Board| #[trigger] leads_to(a, mv, c);
        let x = choose|x: Board| same_play(x, a) && #[trigger] Board::made(x, mv, c);
        assert(leads_to(b, mv, c));
    }
    if has_child(b, mv) {
        let c = choose|c: Board| #[trigger] leads_to(b, mv, c);
        let x = choose|x: Board| same_play(x, b) && #[trigger] Board::made(x, mv, c);
        assert(leads_to(a, mv, c));
    }
    if has_child(a, mv) {
        let c1 = child(a, mv);
        let c2 = child(b, mv);
        assert(leads_to(a, mv, c1));
        assert(leads_to(b, mv, c2));
        let x1 = choose|x: Board| same_play(x, a) && #[trigger] Board::made(x, mv, c1);
        let x2 = choose|x: Board| same_play(x, b) && #[trigger] Board::made(x, mv, c2);
        lemma_made_same_play(x1, x2, mv, c1, c2);
    }
}

/// A move made on a board holding the same play as `b` leads from `b`, to
/// a board holding the same play as the one made.
proof fn lemma_child_of(b: Board, mv: Move, x: Board, a: Board)
    requires
        same_play(x, b),
        Board::made(x, mv, a),
    ensures
        has_child(b, mv),
        same_play(child(b, mv), a),
{
    lemma_same_play_laws();
    assert(leads_to(b, mv, a));
    let c = child(b, mv);
    assert(leads_to(b, mv, c));
    let y = choose|y: Board| same_play(y, b) && #[trigger] Board::made(y, mv, c);
    lemma_made_same_play(y, x, mv, c, a);
}

/// Boards holding the same play have the same number of leaves below them.
proof fn lemma_perft_congruent(a: Board, b: Board, depth: nat)
    requires
        same_play(a, b),
    ensures
        perft_count(a, depth) == perft_count(b, depth),
    decreases depth, 32769int,
{
    if depth > 0 {
        lemma_perft_sum_congruent(a, b, depth, 32768);
    }
}

/// Boards holding the same play have the same leaves below their first
/// `n` numbered moves.
proof fn lemma_perft_sum_congruent(a: Board, b: Board, depth: nat, n: int)
    requires
        same_play(a, b),
    ensures
        perft_sum(a, depth, n) == perft_sum(b, depth, n),
    decreases depth, n,
{
    if depth > 0 && n > 0 {
        lemma_perft_sum_congruent(a, b, depth, n - 1);
        let mv = nth_move(n - 1);
        lemma_same_play_legal(a, b);
        lemma_child_congruent(a, b, mv);
        if a.is_legal(mv) && has_child(a, mv) {
            lemma_perft_congruent(child(a, mv), child(b, mv), (depth - 1) as nat);
        }
    }
}

/// The moves of `s` at positions `lo..hi`, as a set.
pub open spec fn seq_set(s: Seq<Move>, lo: int, hi: int) -> Set<Move> {
    Set::new(|m: Move| exists|j: int| lo <= j < hi && s[j] == m)
}

/// Holding the same position is holding the same play.
proof fn lemma_same_position_play(a: Board, b: Board)
    requires
        a.wf(),
        a.same_position(b),
    ensures
        same_play(a, b),
        same_play(b, a),
{
}

/// Wraparound addition of two counts taken modulo 2^64 is their sum modulo
/// 2^64.
proof fn lemma_wrapping_sum(x: u64, y: u64, s: int, t: int)
    requires
        s >= 0,
        t >= 0,
        x == s % wrap(),
        y == t % wrap(),
    ensures
        vstd::wrapping::u64_specs::wrapping_add(x, y) == (s + t) % wrap(),
{
    vstd::arithmetic::div_mod::lemma_add_mod_noop(s, t, wrap());
    assert((x + y) % wrap() == (s + t) % wrap());
    if x + y > u64::MAX {
        assert((x + y) % wrap() == x + y - wrap()) by {
            vstd::arithmetic::div_mod::lemma_fundamental_div_mod(x + y, wrap());
            assert((x + y) / wrap() == 1) by (nonlinear_arith)
                requires
                    wrap() <= x + y < 2 * wrap(),
                    wrap() == 0x1_0000_0000_0000_0000,
            ;
        }
    } else {
        vstd::arithmetic::div_mod::lemma_small_mod((x + y) as nat, wrap() as nat);
    }
}

/// Toggling a key twice undoes it; toggling nothing changes nothing.
proof fn lemma_toggle(a: u64, c: u64)
    by (bit_vector)
    ensures
        (a ^ c) ^ c == a,
        a ^ 0 == a,
{
}

/// The hash after taking back `n` moves made from a position, each undo
/// toggling the side-to-move key once more.
pub open spec fn toggled(z: u64, n: int) -> u64 {
    if n % 2 == 1 {
        z ^ crate::zobrist::spec_color()
    } else {
        z
    }
}

/// The total of the counts of a divided perft, added with wraparound.
pub open spec fn divide_total(counts: Seq<(Move, u64)>) -> u64
    decreases counts.len(),
{
    if counts.len() == 0 {
        0
    } else {
        vstd::wrapping::u64_specs::wrapping_add(divide_total(counts.drop_last()), counts.last().1)
    }
}


impl Board {
    /// Counts the leaves of the tree of legal moves `depth` plies deep,
    /// taking every move back on the way up.
    fn perft_from(&mut self, depth: u32, move_stack: &mut Vec<Move>) -> (r: u64)
        requires
            old(self).legal_position(),
            old(self).spec_halfmove() + depth <= u32::MAX,
        ensures
            old(self).same_position(*final(self)),
            final(move_stack)@ == old(move_stack)@,
            r == perft_count(*old(self), depth as nat) as int % wrap(),
            depth == 1 ==> r == legal_move_set(*old(self)).len(),
            final(self).meta().zobrist == toggled(
                old(self).meta().zobrist,
                if depth == 0 {
                    0
                } else {
                    legal_move_set(*old(self)).len() as int
                },
            ),
        decreases depth,
    {
        let ghost b0 = *self;
        proof {
            lemma_same_position_refl(b0);
        }
        if depth == 0 {
            return 1;
        }
        let mut nodes: u64 = 0;
        let stack_start = move_stack.len();
        let ghost prefix = move_stack@;
        self.generate_legal_moves(move_stack);
        let end = move_stack.len();
        let ghost full = move_stack@;
        proof {
            lemma_legal_count(b0, prefix, move_stack@);
            assert(seq_set(full, end as int, end as int) =~= Set::<Move>::empty());
            lemma_done_sum_empty(b0, depth as nat, 32768);
            assert(full.subrange(0, end as int) =~= full);
        }
        while move_stack.len() > stack_start
            invariant
                b0.legal_position(),
                b0.spec_halfmove() + depth <= u32::MAX,
                depth > 0,
                move_stack.len() <= end,
                end == full.len(),
                end - stack_start == legal_move_set(b0).len(),
                depth == 1 ==> nodes == end - move_stack.len(),
                b0.same_position(*self),
                stack_start == prefix.len(),
                stack_start <= move_stack.len(),
                move_stack@ == full.subrange(0, move_stack.len() as int),
                full.subrange(0, stack_start as int) == prefix,
                forall|i: int| stack_start <= i < end ==> #[trigger] b0.is_legal(full[i]),
                forall|mv: Move| #[trigger] b0.is_legal(mv) ==> appended_has(prefix, full, mv),
                distinct_from(prefix, full),
                nodes == done_sum(b0, depth as nat, seq_set(full, move_stack.len() as int, end as int), 32768)
                    as int % wrap(),
                self.meta().zobrist == toggled(b0.meta().zobrist, end - move_stack.len()),
            decreases move_stack.len(),
        {
            let ghost before_pop = move_stack@;
            let ghost done = seq_set(full, move_stack.len() as int, end as int);
            let mv = move_stack.pop().unwrap();
            let ghost b = *self;
            proof {
                assert(mv == before_pop[before_pop.len() - 1]);
                assert(mv == full[move_stack.len() as int]);
                assert(b0.is_legal(mv));
                b0.lemma_same_position(b);
                b0.lemma_follows_applicable(mv);
                assert(move_stack@ =~= full.subrange(0, move_stack.len() as int));
            }
            let ghost stack_before = move_stack@;
            self.make_move_unchecked(mv);
            let ghost b1 = *self;
            proof {
                b.lemma_legal_position_kept(mv, b1);
            }
            let count = self.perft_from(depth - 1, move_stack);
            proof {
                let n = move_stack.len() as int;
                lemma_same_position_play(b0, b);
                lemma_child_of(b0, mv, b, b1);
                lemma_perft_congruent(child(b0, mv), b1, (depth - 1) as nat);
                assert(perft_term(b0, depth as nat, mv) == perft_count(b1, (depth - 1) as nat));
                assert(!done.contains(mv)) by {
                    if done.contains(mv) {
                        let j = choose|j: int| n + 1 <= j < end && full[j] == mv;
                        assert(full[j] == full[n]);
                    }
                }
                assert(seq_set(full, n, end as int) =~= done.insert(mv));
                lemma_legal_numbered(b0, mv);
                lemma_numbered(mv);
                lemma_done_sum_insert(b0, depth as nat, done, mv, 32768);
                lemma_wrapping_sum(
                    nodes,
                    count,
                    done_sum(b0, depth as nat, done, 32768) as int,
                    perft_term(b0, depth as nat, mv) as int,
                );
            }
            nodes = nodes.wrapping_add(count);
            let ghost b1x = *self;
            proof {
                b1.lemma_made_undoable_kept(b1x);
            }
            self.unmake_move();
            proof {
                Board::lemma_restored(b, mv, b1, b1x, *self);
                lemma_same_position_trans(b0, b, *self);
                assert(move_stack@ == stack_before);
                lemma_toggle(b0.meta().zobrist, crate::zobrist::spec_color());
            }
        }
        proof {
            assert(move_stack@ =~= prefix);
            let done = seq_set(full, stack_start as int, end as int);
            assert forall|m: Move| #[trigger] done.contains(m) <==> b0.is_legal(m) by {
                if b0.is_legal(m) {
                    assert(appended_has(prefix, full, m));
                    let j = choose|j: int| #![trigger full[j]] stack_start <= j < end && full[j] == m;
                    assert(done.contains(m));
                }
                if done.contains(m) {
                    let j = choose|j: int| stack_start <= j < end && full[j] == m;
                    assert(b0.is_legal(full[j]));
                }
            }
            lemma_done_sum_all(b0, depth as nat, done, 32768);
        }
        nodes
    }

    /// Counts the leaves of the tree of legal moves `depth` plies deep. The
    /// board holds the same position afterwards.
    pub fn perft(&mut self, depth: u32) -> (r: u64)
        requires
            old(self).legal_position(),
            old(self).spec_halfmove() + depth <= u32::MAX,
        ensures
            old(self).same_position(*final(self)),
            r == perft_count(*old(self), depth as nat) as int % wrap(),
            depth == 0 ==> r == 1,
            depth == 1 ==> r == legal_move_set(*old(self)).len(),
            final(self).meta().zobrist == toggled(
                old(self).meta().zobrist,
                if depth == 0 {
                    0
                } else {
                    legal_move_set(*old(self)).len() as int
                },
            ),
    {
        let mut move_stack: Vec<Move> = Vec::new();
        self.perft_from(depth, &mut move_stack)
    }

    /// For each legal move in the order generated, the number of leaves of
    /// the tree of legal moves below it, `depth` plies deep in all, with
    /// their total. The board holds the same position afterwards.
    pub fn perft_divide(&mut self, depth: u32) -> (r: (Vec<(Move, u64)>, u64))
        requires
            old(self).legal_position(),
            1 <= depth,
            old(self).spec_halfmove() + depth <= u32::MAX,
        ensures
            old(self).same_position(*final(self)),
            forall|i: int| 0 <= i < r.0.len() ==> old(self).is_legal(#[trigger] r.0@[i].0),
            forall|mv: Move|
                #[trigger] old(self).is_legal(mv) ==> exists|i: int| 0 <= i < r.0.len() && r.0@[i].0 == mv,
            forall|i: int, j: int| 0 <= i < j < r.0.len() ==> #[trigger] r.0@[i].0 != #[trigger] r.0@[j].0,
            depth == 1 ==> forall|i: int| 0 <= i < r.0.len() ==> #[trigger] r.0@[i].1 == 1,
            r.0.len() == legal_move_set(*old(self)).len(),
            forall|i: int|
                0 <= i < r.0.len() ==> #[trigger] r.0@[i].1 == perft_term(*old(self), depth as nat, r.0@[i].0) as int
                    % wrap(),
            r.1 == divide_total(r.0@),
            r.1 == perft_count(*old(self), depth as nat) as int % wrap(),
            forall|i: int, j: int|
                0 <= i < j < r.0.len() ==> move_group(*old(self), #[trigger] r.0@[i].0) <= move_group(
                    *old(self),
                    #[trigger] r.0@[j].0,
                ),
            final(self).meta().zobrist == toggled(old(self).meta().zobrist, legal_move_set(*old(self)).len() as int),
    {
        let ghost b0 = *self;
        proof {
            lemma_same_position_refl(b0);
        }
        let moves = self.legal_moves();
        let mut counts: Vec<(Move, u64)> = Vec::new();
        let mut total: u64 = 0;
        let mut move_stack: Vec<Move> = Vec::new();
        let mut i: usize = 0;
        proof {
            assert(seq_set(moves@, 0, 0) =~= Set::<Move>::empty());
            lemma_done_sum_empty(b0, depth as nat, 32768);
        }
        while i < moves.len()
            invariant
                b0.legal_position(),
                b0.spec_halfmove() + depth <= u32::MAX,
                1 <= depth,
                b0.same_position(*self),
                i <= moves.len(),
                counts.len() == i,
                forall|j: int| 0 <= j < moves.len() ==> #[trigger] b0.is_legal(moves@[j]),
                forall|mv: Move| #[trigger] b0.is_legal(mv) <==> moves@.contains(mv),
                moves@.no_duplicates(),
                crate::movegen::groups_in_order(b0, Seq::<Move>::empty(), moves@),
                moves@.len() == legal_move_set(b0).len(),
                forall|j: int| 0 <= j < i ==> #[trigger] counts@[j].0 == moves@[j],
                depth == 1 ==> forall|j: int| 0 <= j < i ==> #[trigger] counts@[j].1 == 1,
                total == divide_total(counts@),
                forall|j: int|
                    0 <= j < i ==> #[trigger] counts@[j].1 == perft_term(b0, depth as nat, counts@[j].0) as int
                        % wrap(),
                total == done_sum(b0, depth as nat, seq_set(moves@, 0, i as int), 32768) as int % wrap(),
                self.meta().zobrist == toggled(b0.meta().zobrist, i as int),
            decreases moves.len() - i,
        {
            let mv = moves[i];
            let ghost b = *self;
            proof {
                assert(b0.is_legal(mv));
                b0.lemma_same_position(b);
                b0.lemma_follows_applicable(mv);
            }
            self.make_move_unchecked(mv);
            let ghost b1 = *self;
            proof {
                b.lemma_legal_position_kept(mv, b1);
            }
            let count = self.perft_from(depth - 1, &mut move_stack);
            let ghost b1x = *self;
            proof {
                b1.lemma_made_undoable_kept(b1x);
            }
            self.unmake_move();
            proof {
                Board::lemma_restored(b, mv, b1, b1x, *self);
                lemma_toggle(b0.meta().zobrist, crate::zobrist::spec_color());
                lemma_same_position_trans(b0, b, *self);
            }
            proof {
                let done = seq_set(moves@, 0, i as int);
                lemma_same_position_play(b0, b);
                lemma_child_of(b0, mv, b, b1);
                lemma_perft_congruent(child(b0, mv), b1, (depth - 1) as nat);
                assert(perft_term(b0, depth as nat, mv) == perft_count(b1, (depth - 1) as nat));
                assert(!done.contains(mv)) by {
                    if done.contains(mv) {
                        let j = choose|j: int| 0 <= j < i && moves@[j] == mv;
                        assert(moves@[j] == moves@[i as int]);
                    }
                }
                assert(seq_set(moves@, 0, i + 1) =~= done.insert(mv));
                lemma_legal_numbered(b0, mv);
                lemma_numbered(mv);
                lemma_done_sum_insert(b0, depth as nat, done, mv, 32768);
                lemma_wrapping_sum(
                    total,
                    count,
                    done_sum(b0, depth as nat, done, 32768) as int,
                    perft_term(b0, depth as nat, mv) as int,
                );
            }
            let ghost before = counts@;
            counts.push((mv, count));
            total = total.wrapping_add(count);
            proof {
                assert(counts@.drop_last() =~= before);
            }
            i += 1;
        }
        proof {
            assert(*old(self) == b0);
            assert(i == moves.len());
            let done = seq_set(moves@, 0, i as int);
            assert forall|m: Move| #[trigger] done.contains(m) <==> b0.is_legal(m) by {
                if b0.is_legal(m) {
                    assert(moves@.contains(m));
                    let j = choose|j: int| 0 <= j < moves@.len() && moves@[j] == m;
                    assert(done.contains(m));
                }
                if done.contains(m) {
                    let j = choose|j: int| 0 <= j < i && moves@[j] == m;
                    assert(b0.is_legal(moves@[j]));
                }
            }
            lemma_done_sum_all(b0, depth as nat, done, 32768);
            assert forall|mv: Move| #[trigger] old(self).is_legal(mv) implies exists|i: int|
                0 <= i < counts.len() && counts@[i].0 == mv by {
                assert(b0.is_legal(mv));
                assert(moves@.contains(mv));
                let j = choose|j: int| 0 <= j < moves@.len() && moves@[j] == mv;
                assert(counts@[j].0 == moves@[j]);
                assert(0 <= j < counts.len() && counts@[j].0 == mv);
            }
            assert forall|i: int, j: int| 0 <= i < j < counts.len() implies #[trigger] counts@[i].0 != #[trigger] counts@[j].0 by {
                assert(counts@[i].0 == moves@[i]);
                assert(counts@[j].0 == moves@[j]);
            }
        }
        let r = (counts, total);
        proof {
            assert forall|mv: Move| #[trigger] old(self).is_legal(mv) implies exists|i: int|
                0 <= i < r.0.len() && r.0@[i].0 == mv by {
                let j = choose|j: int| 0 <= j < counts.len() && counts@[j].0 == mv;
                assert(r.0@[j] == counts@[j]);
            }
            assert forall|i: int, j: int|
                0 <= i < j < r.0.len() implies move_group(b0, #[trigger] r.0@[i].0) <= move_group(
                b0,
                #[trigger] r.0@[j].0,
            ) by {
                assert(r.0@[i].0 == moves@[i]);
                assert(r.0@[j].0 == moves@[j]);
            }
        }
        r
    }

    /// A board whose last move can be taken back still can when it holds the
    /// same position.
    proof fn lemma_made_undoable_kept(&self, other: Board)
        requires
            self.undoable(),
            self.same_position(other),
        ensures
            other.undoable(),
    {
    }
}

} // verus!
