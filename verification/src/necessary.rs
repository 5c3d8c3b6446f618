use vstd::prelude::*;
use crate::attacks::{before, knight_step, lemma_coords, on_ray, pawn_attack, Direction};
use crate::bitboard::is_square;
use crate::board::Board;
use crate::pieces::{Color, Move, MoveType, PieceType};
use crate::rules::{
    attacked, attacks_square, clear_path, in_check, lemma_clear_reverse, lemma_pawn_attack_reverse,
    lemma_ray_total, lemma_ray_unique, lemma_step_reverse, occupancy, reverse, slider_for, Placement,
};

verus! {

/// A king whose square is reached by a slider of the other side along a
/// clear path is in check.
pub proof fn lemma_slider_checks(place: Placement, k: int, x: Color, g: int, d: Direction)
    requires
        is_square(k),
        is_square(g),
        place(k) == Some((PieceType::King, x)),
        slider_for(d, place(g), x.spec_opposite()),
        clear_path(d, k, g, occupancy(place)),
    ensures
        attacked(place, k, x.spec_opposite()),
        in_check(place, x),
{
    let y = x.spec_opposite();
    let occ = occupancy(place);
    lemma_clear_reverse(d, k, g, occ);
    let q = place(g).unwrap().0;
    assert(clear_path(reverse(d), g, k, occ));
    match d {
        Direction::North => {},
        Direction::South => {},
        Direction::East => {},
        Direction::West => {},
        Direction::NorthEast => {},
        Direction::NorthWest => {},
        Direction::SouthEast => {},
        Direction::SouthWest => {},
    }
    assert(attacks_square(q, y, g, k, occ));
    assert(attacked(place, k, y));
}

/// A king next to a knight's or a pawn's attack of the other side is in
/// check.
pub proof fn lemma_step_checks(place: Placement, k: int, x: Color, a: int)
    requires
        is_square(k),
        is_square(a),
        place(k) == Some((PieceType::King, x)),
        (place(a) == Some((PieceType::Knight, x.spec_opposite())) && knight_step(k, a)) || (place(a) == Some(
            (PieceType::Pawn, x.spec_opposite()),
        ) && pawn_attack(x.spec_index(), k, a)),
    ensures
        attacked(place, k, x.spec_opposite()),
        in_check(place, x),
{
    let y = x.spec_opposite();
    let occ = occupancy(place);
    lemma_step_reverse(k, a);
    lemma_pawn_attack_reverse(x, k, a);
    let q = place(a).unwrap().0;
    assert(attacks_square(q, y, a, k, occ));
    assert(attacked(place, k, y));
}

impl Board {
    /// The squares occupied after a move of a piece other than the king
    /// from `src` to `dst`: `dst`, and those occupied before but `src`.
    pub(crate) proof fn lemma_step_occupancy(&self, mv: Move)
        requires
            mv.move_type is Regular || mv.move_type is Promotion,
            is_square(mv.from as int),
            is_square(mv.to as int),
            mv.from != mv.to,
            self.at(mv.from as int) is Some,
        ensures
            forall|u: int|
                #[trigger] occupancy(self.after(mv)).contains(u) == (is_square(u) && (u == mv.to as int || (u
                    != mv.from as int && self.occupied().contains(u)))),
    {
    }

    /// A legal move of a piece other than the king passes the check and pin
    /// tests of the move generator.
    pub(crate) proof fn lemma_dest_needed(&self, mv: Move)
        requires
            self.playable_position(),
            mv.move_type is Regular || mv.move_type is Promotion,
            self.is_legal(mv),
            self.at(mv.from as int) != Some((PieceType::King, self.spec_active())),
        ensures
            self.dest_ok(mv.from as int, mv.to as int),
    {
        let x = self.spec_active();
        let y = x.spec_opposite();
        let k = self.king_sq(x);
        let src = mv.from as int;
        let dst = mv.to as int;
        let after = self.after(mv);
        let o = self.occupied();
        let o1 = occupancy(after);
        self.lemma_king_sq(x);
        lemma_coords(src);
        lemma_coords(dst);
        assert(self.at(src) matches Some((_, c)) && c == x);
        assert(src != dst) by {
            if src == dst {
                match mv.move_type {
                    MoveType::Regular => {
                        assert(self.lands_ok(dst) || self.pawn_move_ok(src, dst));
                    },
                    _ => {},
                }
            }
        }
        assert(self.lands_ok(dst)) by {
            match mv.move_type {
                MoveType::Regular => {},
                _ => {},
            }
        }
        assert(k != src);
        assert(k != dst);
        assert(after(k) == Some((PieceType::King, x)));
        self.lemma_step_occupancy(mv);
        // every check is answered by the destination
        assert forall|d: Direction| #[trigger] self.checked_along(k, d) implies clear_path(d, k, dst, o) by {
            let g = choose|g: int| #![trigger self.at(g)] clear_path(d, k, g, o) && slider_for(d, self.at(g), y);
            assert(g != src);
            if !clear_path(d, k, dst, o) {
                assert(g != dst);
                assert(after(g) == self.at(g));
                assert forall|u: int| #![trigger o1.contains(u)] on_ray(d, k, u) && before(d, u, g) implies !o1.contains(u) by {
                    if u == dst {
                        assert forall|w: int| #![trigger o.contains(w)] on_ray(d, k, w) && before(d, w, dst) implies !o.contains(w) by {
                        }
                        assert(clear_path(d, k, dst, o));
                    }
                }
                assert(clear_path(d, k, g, o1));
                lemma_slider_checks(after, k, x, g, d);
            }
        }
        assert forall|a: int| #[trigger] self.knight_checker(k, a) implies a == dst by {
            if a != dst {
                assert(after(a) == self.at(a));
                lemma_step_checks(after, k, x, a);
            }
        }
        assert forall|a: int| #[trigger] self.pawn_checker(k, a) implies a == dst by {
            if a != dst {
                assert(after(a) == self.at(a));
                lemma_step_checks(after, k, x, a);
            }
        }
        // at most one check
        if exists|d: Direction| #[trigger] self.checked_along(k, d) {
            let d = choose|d: Direction| #[trigger] self.checked_along(k, d);
            let g = choose|g: int| #![trigger self.at(g)] clear_path(d, k, g, o) && slider_for(d, self.at(g), y);
            assert forall|e: Direction| #[trigger] self.checked_along(k, e) implies e == d by {
                assert(clear_path(e, k, dst, o));
                assert(clear_path(d, k, dst, o));
                lemma_ray_unique(d, e, k, dst);
            }
            assert(clear_path(d, k, dst, o));
            // the destination lies on the checking ray, up to the checker
            lemma_ray_total(d, k, dst, g);
            if before(d, g, dst) {
                assert(o.contains(g));
            }
            assert(!exists|a: int| #[trigger] self.knight_checker(k, a)) by {
                if exists|a: int| #[trigger] self.knight_checker(k, a) {
                    let a = choose|a: int| #[trigger] self.knight_checker(k, a);
                    assert(a == dst);
                    if before(d, dst, g) {
                        assert(o.contains(dst));
                    }
                }
            }
            assert(!exists|a: int| #[trigger] self.pawn_checker(k, a)) by {
                if exists|a: int| #[trigger] self.pawn_checker(k, a) {
                    let a = choose|a: int| #[trigger] self.pawn_checker(k, a);
                    assert(a == dst);
                    if before(d, dst, g) {
                        assert(o.contains(dst));
                    }
                }
            }
            match d {
                Direction::North => {},
                Direction::South => {},
                Direction::East => {},
                Direction::West => {},
                Direction::NorthEast => {},
                Direction::NorthWest => {},
                Direction::SouthEast => {},
                Direction::SouthWest => {},
            }
            assert(self.check_count(k) == 1);
            assert(self.blocks_check(k, dst));
        } else if exists|a: int| #[trigger] self.knight_checker(k, a) {
            let a = choose|a: int| #[trigger] self.knight_checker(k, a);
            assert(!exists|b: int| #[trigger] self.pawn_checker(k, b)) by {
                if exists|b: int| #[trigger] self.pawn_checker(k, b) {
                    let b = choose|b: int| #[trigger] self.pawn_checker(k, b);
                    assert(a == dst && b == dst);
                }
            }
            assert(self.checked_along(k, Direction::North) == false);
            assert(self.checked_along(k, Direction::South) == false);
            assert(self.checked_along(k, Direction::East) == false);
            assert(self.checked_along(k, Direction::West) == false);
            assert(self.checked_along(k, Direction::NorthEast) == false);
            assert(self.checked_along(k, Direction::NorthWest) == false);
            assert(self.checked_along(k, Direction::SouthEast) == false);
            assert(self.checked_along(k, Direction::SouthWest) == false);
            assert(self.check_count(k) == 1);
            assert(self.knight_checker(k, dst));
        } else {
            assert(self.checked_along(k, Direction::North) == false);
            assert(self.checked_along(k, Direction::South) == false);
            assert(self.checked_along(k, Direction::East) == false);
            assert(self.checked_along(k, Direction::West) == false);
            assert(self.checked_along(k, Direction::NorthEast) == false);
            assert(self.checked_along(k, Direction::NorthWest) == false);
            assert(self.checked_along(k, Direction::SouthEast) == false);
            assert(self.checked_along(k, Direction::SouthWest) == false);
            if exists|b: int| #[trigger] self.pawn_checker(k, b) {
                let b = choose|b: int| #[trigger] self.pawn_checker(k, b);
                assert(self.check_count(k) == 1);
                assert(self.pawn_checker(k, dst));
            } else {
                assert(self.check_count(k) == 0);
            }
        }
        // a pinned piece stays on its pin ray
        assert forall|d: Direction| self.pinned_along(k, d) && #[trigger] self.through(k, d, src) implies self.through(
            k,
            d,
            dst,
        ) by {
            self.lemma_pinned_mover(d, src);
            let fr = self.first_ray(k, d);
            let o2 = o.difference(fr);
            let g = choose|g: int| #![trigger self.at(g)] self.through(k, d, g) && slider_for(d, self.at(g), y);
            if !self.through(k, d, dst) {
                assert(g != dst);
                assert(g != src);
                assert(after(g) == self.at(g));
                assert forall|u: int| #![trigger o1.contains(u)] on_ray(d, k, u) && before(d, u, g) implies !o1.contains(u) by {
                    if u == dst {
                        assert forall|w: int| #![trigger o2.contains(w)] on_ray(d, k, w) && before(d, w, dst) implies !o2.contains(w) by {
                        }
                        assert(self.through(k, d, dst));
                    } else if u != src {
                        lemma_ray_total(d, k, u, src);
                        if before(d, u, src) {
                            assert(!o.contains(u));
                        } else {
                            assert(!o2.contains(u));
                            assert(!fr.contains(u)) by {
                                if fr.contains(u) {
                                    assert(clear_path(d, k, u, o));
                                    assert(o.contains(src));
                                }
                            }
                        }
                    }
                }
                assert(clear_path(d, k, g, o1));
                lemma_slider_checks(after, k, x, g, d);
            }
        }
    }

    /// A piece of the side to move on the pin ray of a pin along `d` is the
    /// first piece along `d`: every square before it is empty.
    pub(crate) proof fn lemma_pinned_mover(&self, d: Direction, src: int)
        requires
            self.placement_ok(),
            self.pinned_along(self.king_sq(self.spec_active()), d),
            self.through(self.king_sq(self.spec_active()), d, src),
            self.at(src) matches Some((_, c)) && c == self.spec_active(),
        ensures
            clear_path(d, self.king_sq(self.spec_active()), src, self.occupied()),
            self.first_ray(self.king_sq(self.spec_active()), d).contains(src),
    {
        let x = self.spec_active();
        let y = x.spec_opposite();
        let k = self.king_sq(x);
        let o = self.occupied();
        let fr = self.first_ray(k, d);
        let o2 = o.difference(fr);
        let f = choose|f: int|
            #![trigger self.at(f)]
            clear_path(d, k, f, o) && (self.at(f) matches Some((_, c)) && c == x);
        let g = choose|g: int| #![trigger self.at(g)] self.through(k, d, g) && slider_for(d, self.at(g), y);
        assert(o.contains(src));
        assert(o.contains(f));
        assert(o.contains(g));
        assert(fr.contains(f));
        lemma_ray_total(d, k, f, src);
        if f != src {
            if before(d, src, f) {
                assert(!o.contains(src));
            } else {
                assert(!fr.contains(src)) by {
                    if fr.contains(src) {
                        assert(clear_path(d, k, src, o));
                        assert(!o.contains(f));
                    }
                }
                assert(o2.contains(src));
                lemma_ray_total(d, k, g, src);
                if before(d, src, g) {
                    assert(!o2.contains(src));
                } else if before(d, g, src) {
                    assert(!o2.contains(g));
                    assert(fr.contains(g));
                    assert(clear_path(d, k, g, o));
                    lemma_ray_total(d, k, g, f);
                    if before(d, f, g) {
                        assert(!o.contains(f));
                    } else if before(d, g, f) {
                        assert(!o.contains(g));
                    }
                }
            }
        }
    }
}

impl Board {
    /// A counted check attacks the king of the side to move.
    pub(crate) proof fn lemma_checks_attack(&self)
        requires
            self.playable_position(),
            self.check_count(self.king_sq(self.spec_active())) > 0,
        ensures
            attacked(self.placement(), self.king_sq(self.spec_active()), self.spec_active().spec_opposite()),
    {
        let x = self.spec_active();
        let y = x.spec_opposite();
        let k = self.king_sq(x);
        let place = self.placement();
        let o = self.occupied();
        self.lemma_king_sq(x);
        assert(place(k) == Some((PieceType::King, x)));
        if exists|d: Direction| #[trigger] self.checked_along(k, d) {
            let d = choose|d: Direction| #[trigger] self.checked_along(k, d);
            let g = choose|g: int| #![trigger self.at(g)] clear_path(d, k, g, o) && slider_for(d, self.at(g), y);
            assert(place(g) == self.at(g));
            lemma_slider_checks(place, k, x, g, d);
        } else if exists|a: int| #[trigger] self.knight_checker(k, a) {
            let a = choose|a: int| #[trigger] self.knight_checker(k, a);
            lemma_step_checks(place, k, x, a);
        } else if exists|a: int| #[trigger] self.pawn_checker(k, a) {
            let a = choose|a: int| #[trigger] self.pawn_checker(k, a);
            lemma_step_checks(place, k, x, a);
        } else {
            assert(self.checked_along(k, Direction::North) == false);
            assert(self.checked_along(k, Direction::South) == false);
            assert(self.checked_along(k, Direction::East) == false);
            assert(self.checked_along(k, Direction::West) == false);
            assert(self.checked_along(k, Direction::NorthEast) == false);
            assert(self.checked_along(k, Direction::NorthWest) == false);
            assert(self.checked_along(k, Direction::SouthEast) == false);
            assert(self.checked_along(k, Direction::SouthWest) == false);
            assert(self.check_count(k) == 0);
        }
    }

    /// A legal king step lands on a square that the other side does not
    /// attack with the king lifted off.
    pub(crate) proof fn lemma_king_step_needed(&self, mv: Move)
        requires
            self.playable_position(),
            mv.move_type is Regular,
            self.is_legal(mv),
            self.at(mv.from as int) == Some((PieceType::King, self.spec_active())),
        ensures
            mv.from as int == self.king_sq(self.spec_active()),
            self.piece_move_ok(PieceType::King, mv.from as int, mv.to as int),
            !attacked(self.ignoring_king(), mv.to as int, self.spec_active().spec_opposite()),
    {
        let x = self.spec_active();
        let y = x.spec_opposite();
        let k = self.king_sq(x);
        let src = mv.from as int;
        let dst = mv.to as int;
        let after = self.after(mv);
        let o1 = occupancy(after);
        let place = self.ignoring_king();
        let o2 = occupancy(place);
        self.lemma_king_sq(x);
        assert(src == k);
        assert(src != dst);
        if attacked(place, dst, y) {
            let s = choose|s: int|
                #![trigger place(s)]
                is_square(s) && (place(s) matches Some((q, c)) && c == y && attacks_square(q, c, s, dst, o2));
            let q = place(s).unwrap().0;
            assert(self.at(s) == Some((q, y)));
            lemma_coords(s);
            lemma_coords(dst);
            assert(s != dst);
            assert(after(s) == self.at(s));
            assert forall|d: Direction, u: int|
                #![trigger on_ray(d, s, u), o1.contains(u)]
                on_ray(d, s, dst) && on_ray(d, s, u) && before(d, u, dst) && o1.contains(u) implies o2.contains(u) by {
            }
            crate::movegen::lemma_attack_mono(q, y, s, dst, o2, o1);
            assert(after(dst) == Some((PieceType::King, x)));
            assert(attacked(after, dst, y));
            assert(in_check(after, x));
        }
    }
}

impl Board {
    /// The squares occupied after an en passant capture.
    pub(crate) proof fn lemma_en_passant_occupancy(&self, mv: Move)
        requires
            self.playable_position(),
            mv.move_type is EnPassant,
            self.follows_rules(mv),
        ensures
            ({
                let t = mv.move_type->EnPassant_0 as int;
                &&& t == if self.spec_active() == Color::White { mv.to - 8 } else { mv.to + 8 }
                &&& is_square(t)
                &&& self.at(t) == Some((PieceType::Pawn, self.spec_active().spec_opposite()))
                &&& self.at(mv.to as int) is None
                &&& forall|u: int|
                    #[trigger] occupancy(self.after(mv)).contains(u) == (is_square(u) && (u == mv.to as int || (u
                        != mv.from as int && u != t && self.occupied().contains(u))))
            }),
    {
        let x = self.spec_active();
        let src = mv.from as int;
        let dst = mv.to as int;
        let t = mv.move_type->EnPassant_0 as int;
        lemma_coords(src);
        lemma_coords(dst);
        assert(self.en_passant_ok(dst));
        assert(t == if x == Color::White { dst - 8 } else { dst + 8 });
    }

    /// A legal en passant capture passes the tests of the move generator:
    /// at most one check, answered by the capture; a pinned pawn keeps to
    /// its pin ray; and no slider reaches the king afterwards.
    #[verifier::rlimit(40)]
    pub(crate) proof fn lemma_en_passant_needed(&self, mv: Move)
        requires
            self.playable_position(),
            mv.move_type is EnPassant,
            self.is_legal(mv),
        ensures
            self.check_count(self.king_sq(self.spec_active())) <= 1,
            self.check_count(self.king_sq(self.spec_active())) == 0 || self.blocks_check(
                self.king_sq(self.spec_active()),
                mv.to as int,
            ) || self.blocks_check(self.king_sq(self.spec_active()), mv.move_type->EnPassant_0 as int),
            forall|d: Direction|
                self.pinned_along(self.king_sq(self.spec_active()), d) && #[trigger] self.through(
                    self.king_sq(self.spec_active()),
                    d,
                    mv.from as int,
                ) ==> self.through(self.king_sq(self.spec_active()), d, mv.to as int),
            self.no_slider_reaches(self.king_sq(self.spec_active()), occupancy(self.after(mv))),
    {
        let x = self.spec_active();
        let y = x.spec_opposite();
        let k = self.king_sq(x);
        let src = mv.from as int;
        let dst = mv.to as int;
        let t = mv.move_type->EnPassant_0 as int;
        let after = self.after(mv);
        let o = self.occupied();
        let o1 = occupancy(after);
        self.lemma_king_sq(x);
        self.lemma_en_passant_occupancy(mv);
        assert(self.at(src) == Some((PieceType::Pawn, x)));
        assert(k != src && k != dst && k != t);
        assert(after(k) == Some((PieceType::King, x)));
        lemma_coords(src);
        lemma_coords(dst);
        lemma_coords(t);
        lemma_coords(k);
        // each slider check is blocked on the en passant square
        assert forall|d: Direction| #[trigger] self.checked_along(k, d) implies clear_path(d, k, dst, o) by {
            let g = choose|g: int| #![trigger self.at(g)] clear_path(d, k, g, o) && slider_for(d, self.at(g), y);
            if !clear_path(d, k, dst, o) {
                assert(g != src && g != dst && g != t);
                assert(after(g) == self.at(g));
                assert forall|u: int| #![trigger o1.contains(u)] on_ray(d, k, u) && before(d, u, g) implies !o1.contains(u) by {
                    if u == dst {
                        assert forall|w: int| #![trigger o.contains(w)] on_ray(d, k, w) && before(d, w, dst) implies !o.contains(w) by {
                        }
                        assert(clear_path(d, k, dst, o));
                    }
                }
                lemma_slider_checks(after, k, x, g, d);
            }
        }
        assert forall|a: int| #[trigger] self.knight_checker(k, a) implies false by {
            assert(a != src && a != dst && a != t);
            assert(after(a) == self.at(a));
            lemma_step_checks(after, k, x, a);
        }
        assert forall|a: int| #[trigger] self.pawn_checker(k, a) implies a == t by {
            if a != t {
                assert(a != src && a != dst);
                assert(after(a) == self.at(a));
                lemma_step_checks(after, k, x, a);
            }
        }
        if exists|d: Direction| #[trigger] self.checked_along(k, d) {
            let d = choose|d: Direction| #[trigger] self.checked_along(k, d);
            assert forall|e: Direction| #[trigger] self.checked_along(k, e) implies e == d by {
                assert(clear_path(e, k, dst, o));
                assert(clear_path(d, k, dst, o));
                lemma_ray_unique(d, e, k, dst);
            }
            assert(!exists|a: int| #[trigger] self.pawn_checker(k, a)) by {
                if exists|a: int| #[trigger] self.pawn_checker(k, a) {
                    let a = choose|a: int| #[trigger] self.pawn_checker(k, a);
                    assert(a == t);
                    assert(on_ray(d, k, dst));
                }
            }
            assert(!exists|a: int| #[trigger] self.knight_checker(k, a));
            match d {
                Direction::North => {},
                Direction::South => {},
                Direction::East => {},
                Direction::West => {},
                Direction::NorthEast => {},
                Direction::NorthWest => {},
                Direction::SouthEast => {},
                Direction::SouthWest => {},
            }
            assert(self.check_count(k) == 1);
            assert(self.blocks_check(k, dst));
        } else {
            assert(self.checked_along(k, Direction::North) == false);
            assert(self.checked_along(k, Direction::South) == false);
            assert(self.checked_along(k, Direction::East) == false);
            assert(self.checked_along(k, Direction::West) == false);
            assert(self.checked_along(k, Direction::NorthEast) == false);
            assert(self.checked_along(k, Direction::NorthWest) == false);
            assert(self.checked_along(k, Direction::SouthEast) == false);
            assert(self.checked_along(k, Direction::SouthWest) == false);
            assert(!exists|a: int| #[trigger] self.knight_checker(k, a));
            if exists|a: int| #[trigger] self.pawn_checker(k, a) {
                let a = choose|a: int| #[trigger] self.pawn_checker(k, a);
                assert(self.check_count(k) == 1);
                assert(self.pawn_checker(k, t));
            } else {
                assert(self.check_count(k) == 0);
            }
        }
        // a pinned pawn keeps to its pin ray
        assert forall|d: Direction| self.pinned_along(k, d) && #[trigger] self.through(k, d, src) implies self.through(
            k,
            d,
            dst,
        ) by {
            self.lemma_pinned_mover(d, src);
            let fr = self.first_ray(k, d);
            let o2 = o.difference(fr);
            let g = choose|g: int| #![trigger self.at(g)] self.through(k, d, g) && slider_for(d, self.at(g), y);
            if !self.through(k, d, dst) {
                assert(g != dst && g != src && g != t);
                assert(after(g) == self.at(g));
                assert forall|u: int| #![trigger o1.contains(u)] on_ray(d, k, u) && before(d, u, g) implies !o1.contains(u) by {
                    if u == dst {
                        assert forall|w: int| #![trigger o2.contains(w)] on_ray(d, k, w) && before(d, w, dst) implies !o2.contains(w) by {
                        }
                        assert(self.through(k, d, dst));
                    } else if u != src && u != t {
                        lemma_ray_total(d, k, u, src);
                        if before(d, u, src) {
                            assert(!o.contains(u));
                        } else {
                            assert(!o2.contains(u));
                            assert(!fr.contains(u)) by {
                                if fr.contains(u) {
                                    assert(clear_path(d, k, u, o));
                                    assert(o.contains(src));
                                }
                            }
                        }
                    }
                }
                lemma_slider_checks(after, k, x, g, d);
            }
        }
        // no slider reaches the king afterwards
        assert forall|s: int| #![trigger self.at(s)] is_square(s) implies (((self.at(s) == Some(
            (PieceType::Bishop, y),
        ) || self.at(s) == Some((PieceType::Queen, y))) ==> !crate::rules::diagonal_reach(s, k, o1)) && ((
        self.at(s) == Some((PieceType::Rook, y)) || self.at(s) == Some((PieceType::Queen, y)))
            ==> !crate::rules::straight_reach(s, k, o1))) by {
            if self.at(s) == Some((PieceType::Bishop, y)) || self.at(s) == Some((PieceType::Rook, y)) || self.at(s)
                == Some((PieceType::Queen, y)) {
                let q = self.at(s).unwrap().0;
                assert(s != src && s != dst && s != t);
                assert(after(s) == self.at(s));
                let dirs = seq![
                    Direction::NorthEast,
                    Direction::NorthWest,
                    Direction::SouthEast,
                    Direction::SouthWest,
                    Direction::North,
                    Direction::South,
                    Direction::East,
                    Direction::West,
                ];
                assert forall|i: int| 0 <= i < 8 && clear_path(#[trigger] dirs[i], s, k, o1) && slider_for(
                    reverse(dirs[i]),
                    self.at(s),
                    y,
                ) implies false by {
                    lemma_clear_reverse(dirs[i], s, k, o1);
                    lemma_slider_checks(after, k, x, s, reverse(dirs[i]));
                }
                assert(slider_for(reverse(dirs[0]), self.at(s), y) == (q != PieceType::Rook));
                assert(slider_for(reverse(dirs[4]), self.at(s), y) == (q != PieceType::Bishop));
            }
        }
    }
}

} // verus!
