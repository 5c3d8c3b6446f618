use vstd::prelude::*;
use crate::utils::push_char;
use crate::board::list_valid;
use crate::pieces::{CastlingRights, Color, PieceType};
use crate::board::{list_at, new_error, Board, BoardMetadata};
use crate::bitboard::{is_square, Bitboard};

verus! {

/// Whether a character has the Unicode White_Space property.
pub open spec fn is_ws(c: char) -> bool {
    let u = c as u32;
    ||| 9 <= u <= 13
    ||| u == 32
    ||| u == 0x85
    ||| u == 0xA0
    ||| u == 0x1680
    ||| 0x2000 <= u <= 0x200A
    ||| u == 0x2028
    ||| u == 0x2029
    ||| u == 0x202F
    ||| u == 0x205F
    ||| u == 0x3000
}

/// The whitespace-separated tokens of the first `i` characters of `s`, as
/// spans, and the start of the token being read (-1 between tokens).
pub open spec fn ws_scan(s: Seq<char>, i: nat) -> (Seq<(int, int)>, int)
    decreases i,
{
    if i == 0 {
        (seq![], -1)
    } else {
        let (spans, start) = ws_scan(s, (i - 1) as nat);
        if is_ws(s[i - 1]) {
            if start >= 0 {
                (spans.push((start, i - 1)), -1)
            } else {
                (spans, -1)
            }
        } else if start >= 0 {
            (spans, start)
        } else {
            (spans, i - 1)
        }
    }
}

/// The spans of the whitespace-separated tokens of `s`.
pub open spec fn ws_spans(s: Seq<char>) -> Seq<(int, int)> {
    let (spans, start) = ws_scan(s, s.len());
    if start >= 0 {
        spans.push((start, s.len() as int))
    } else {
        spans
    }
}

/// The whitespace-separated tokens of `s`.
pub open spec fn ws_fields(s: Seq<char>) -> Seq<Seq<char>> {
    ws_spans(s).map_values(|p: (int, int)| s.subrange(p.0, p.1))
}

/// The parts of the first `i` characters of `s` between slashes, as spans,
/// and the start of the part being read.
pub open spec fn slash_scan(s: Seq<char>, i: nat) -> (Seq<(int, int)>, int)
    decreases i,
{
    if i == 0 {
        (seq![], 0)
    } else {
        let (spans, start) = slash_scan(s, (i - 1) as nat);
        if s[i - 1] == '/' {
            (spans.push((start, i - 1)), i as int)
        } else {
            (spans, start)
        }
    }
}

/// The parts of `s` between slashes.
pub open spec fn slash_fields(s: Seq<char>) -> Seq<Seq<char>> {
    let (spans, start) = slash_scan(s, s.len());
    spans.push((start, s.len() as int)).map_values(|p: (int, int)| s.subrange(p.0, p.1))
}

/// The value of a decimal digit character.
pub open spec fn digit_value(c: char) -> int {
    c as int - 48
}

/// The value of the digits of `s`, as a mathematical number.
pub open spec fn digits_value(s: Seq<char>) -> int
    decreases s.len(),
{
    if s.len() == 0 {
        0
    } else {
        digits_value(s.drop_last()) * 10 + digit_value(s.last())
    }
}

/// Whether every character of `s` is a decimal digit.
pub open spec fn all_digits(s: Seq<char>) -> bool {
    forall|i: int| 0 <= i < s.len() ==> '0' <= #[trigger] s[i] <= '9'
}

/// How the standard library reads an unsigned 32-bit number: an optional
/// `+` and at least one decimal digit, with a value that fits.
pub open spec fn parse_u32_spec(s: Seq<char>) -> Option<u32> {
    let digits = if s.len() > 0 && s[0] == '+' {
        s.drop_first()
    } else {
        s
    };
    if digits.len() > 0 && all_digits(digits) && digits_value(digits) <= u32::MAX {
        Some(digits_value(digits) as u32)
    } else {
        None
    }
}

/// The characters of a string slice.
pub fn chars_of(s: &str) -> (r: Vec<char>)
    ensures
        r@ == s@,
{
    let n = s.unicode_len();
    let mut r: Vec<char> = Vec::new();
    let mut i: usize = 0;
    while i < n
        invariant
            i <= n,
            n == s@.len(),
            r@ == s@.subrange(0, i as int),
        decreases n - i,
    {
        r.push(s.get_char(i));
        i += 1;
        proof {
            assert(r@ =~= s@.subrange(0, i as int));
        }
    }
    proof {
        assert(r@ =~= s@);
    }
    r
}

/// Spans of indices, read as integers.
pub open spec fn int_spans(v: Seq<(usize, usize)>) -> Seq<(int, int)> {
    v.map_values(|p: (usize, usize)| (p.0 as int, p.1 as int))
}

/// Whether a character has the Unicode White_Space property.
pub fn is_whitespace(c: char) -> (r: bool)
    ensures
        r == is_ws(c),
{
    let u = c as u32;
    (9 <= u && u <= 13) || u == 32 || u == 0x85 || u == 0xA0 || u == 0x1680 || (0x2000 <= u && u <= 0x200A) || u
        == 0x2028 || u == 0x2029 || u == 0x202F || u == 0x205F || u == 0x3000
}

/// The spans of the whitespace-separated tokens of `s`.
#[verifier::spinoff_prover]
fn split_whitespace_spans(s: &Vec<char>) -> (r: Vec<(usize, usize)>)
    ensures
        int_spans(r@) == ws_spans(s@),
        forall|k: int| 0 <= k < r.len() ==> #[trigger] r@[k].0 <= r@[k].1 <= s.len(),
{
    let mut spans: Vec<(usize, usize)> = Vec::new();
    let mut start: Option<usize> = None;
    let mut i: usize = 0;
    while i < s.len()
        invariant
            i <= s.len(),
            (int_spans(spans@), match start {
                Some(x) => x as int,
                None => -1,
            }) == ws_scan(s@, i as nat),
            forall|k: int| 0 <= k < spans.len() ==> #[trigger] spans@[k].0 <= spans@[k].1 <= i,
            start matches Some(x) ==> x < i,
        decreases s.len() - i,
    {
        let c = s[i];
        let ws = is_whitespace(c);
        let ghost old_spans = spans@;
        if ws {
            if let Some(x) = start {
                spans.push((x, i));
                proof {
                    assert(int_spans(spans@) =~= int_spans(old_spans).push((x as int, i as int)));
                    assert forall|k: int| 0 <= k < spans.len() implies #[trigger] spans@[k].0 <= spans@[k].1 <= i + 1 by {
                        if k < old_spans.len() {
                            assert(spans@[k] == old_spans[k]);
                        }
                    }
                }
            }
            start = None;
        } else if start.is_none() {
            start = Some(i);
        }
        i += 1;
    }
    let ghost old_spans = spans@;
    proof {
        assert(i == s.len());
    }
    if let Some(x) = start {
        spans.push((x, s.len()));
        proof {
            assert(int_spans(spans@) =~= int_spans(old_spans).push((x as int, s.len() as int)));
            assert forall|k: int| 0 <= k < spans.len() implies #[trigger] spans@[k].0 <= spans@[k].1 <= s.len() by {
                if k < old_spans.len() {
                    assert(spans@[k] == old_spans[k]);
                }
            }
        }
    }
    spans
}

/// The spans of the parts of `s` between slashes.
#[verifier::spinoff_prover]
fn split_slash_spans(s: &Vec<char>) -> (r: Vec<(usize, usize)>)
    ensures
        int_spans(r@) == slash_scan(s@, s@.len()).0.push((slash_scan(s@, s@.len()).1, s@.len() as int)),
        forall|k: int| #![trigger r@[k]] 0 <= k < r@.len() ==> r@[k].0 <= r@[k].1 && r@[k].1 <= s@.len(),
{
    let mut spans: Vec<(usize, usize)> = Vec::new();
    let mut start: usize = 0;
    let mut i: usize = 0;
    while i < s.len()
        invariant
            i <= s.len(),
            (int_spans(spans@), start as int) == slash_scan(s@, i as nat),
            forall|k: int| 0 <= k < spans.len() ==> #[trigger] spans@[k].0 <= spans@[k].1 <= i,
            start <= i,
        decreases s.len() - i,
    {
        let ghost old_spans = spans@;
        if s[i] == '/' {
            spans.push((start, i));
            proof {
                assert(int_spans(spans@) =~= int_spans(old_spans).push((start as int, i as int)));
                assert forall|k: int| 0 <= k < spans.len() implies #[trigger] spans@[k].0 <= spans@[k].1 <= i + 1 by {
                    if k < old_spans.len() {
                        assert(spans@[k] == old_spans[k]);
                    }
                }
            }
            start = i + 1;
        }
        i += 1;
    }
    let ghost old_spans = spans@;
    spans.push((start, s.len()));
    proof {
        assert(int_spans(spans@) =~= int_spans(old_spans).push((start as int, s.len() as int)));
        assert forall|k: int| 0 <= k < spans@.len() implies #[trigger] spans@[k].0 <= spans@[k].1 && spans@[k].1 <= s@.len() by {
            if k < old_spans.len() {
                assert(spans@[k] == old_spans[k]);
                assert(old_spans[k].0 <= old_spans[k].1 <= i);
            }
        }
        assert(forall|k: int| #![trigger spans@[k]] 0 <= k < spans@.len() ==> spans@[k].0 <= spans@[k].1 && spans@[k].1 <= s@.len());
    }
    spans
}


/// A copy of characters `a..b` of `s`.
pub fn slice_chars(s: &Vec<char>, a: usize, b: usize) -> (r: Vec<char>)
    requires
        a <= b <= s.len(),
    ensures
        r@ == s@.subrange(a as int, b as int),
{
    let mut r: Vec<char> = Vec::new();
    let mut i = a;
    while i < b
        invariant
            a <= i <= b <= s.len(),
            r@ == s@.subrange(a as int, i as int),
        decreases b - i,
    {
        r.push(s[i]);
        i += 1;
        proof {
            assert(r@ =~= s@.subrange(a as int, i as int));
        }
    }
    r
}

/// A prefix of digits is worth no more than all of them.
proof fn lemma_digits_mono(s: Seq<char>, k: int)
    requires
        all_digits(s),
        0 <= k <= s.len(),
    ensures
        0 <= digits_value(s.subrange(0, k)) <= digits_value(s),
    decreases s.len(),
{
    if s.len() > 0 {
        let t = s.drop_last();
        assert(all_digits(t)) by {
            assert forall|i: int| 0 <= i < t.len() implies '0' <= #[trigger] t[i] <= '9' by {
                assert(t[i] == s[i]);
            }
        }
        if k == s.len() {
            assert(s.subrange(0, k) =~= s);
            lemma_digits_mono(t, t.len() as int);
            assert(t.subrange(0, t.len() as int) =~= t);
        } else {
            lemma_digits_mono(t, k);
            assert(t.subrange(0, k) =~= s.subrange(0, k));
            lemma_digits_mono(t, t.len() as int);
            assert(t.subrange(0, t.len() as int) =~= t);
            assert('0' <= s[s.len() - 1] <= '9');
        }
    }
}

/// Reads an unsigned 32-bit number as the standard library does: an
/// optional `+` and decimal digits whose value fits.
pub fn parse_u32(s: &Vec<char>) -> (r: Option<u32>)
    ensures
        r == parse_u32_spec(s@),
{
    let mut i: usize = 0;
    if s.len() > 0 && s[0] == '+' {
        i = 1;
    }
    let ghost digits = s@.subrange(i as int, s.len() as int);
    proof {
        if s@.len() > 0 && s@[0] == '+' {
            assert(digits =~= s@.drop_first());
        } else {
            assert(digits =~= s@);
        }
    }
    if i >= s.len() {
        return None;
    }
    let start = i;
    let mut value: u64 = 0;
    while i < s.len()
        invariant
            start <= i <= s.len(),
            start < s.len(),
            digits == s@.subrange(start as int, s.len() as int),
            digits == (if s@.len() > 0 && s@[0] == '+' {
                s@.drop_first()
            } else {
                s@
            }),
            all_digits(s@.subrange(start as int, i as int)),
            value == digits_value(s@.subrange(start as int, i as int)),
            value <= u32::MAX,
        decreases s.len() - i,
    {
        let c = s[i];
        let ghost prefix = s@.subrange(start as int, i as int);
        let ghost next = s@.subrange(start as int, i + 1);
        proof {
            assert(next.drop_last() =~= prefix);
            assert(next.last() == c);
        }
        if !('0' <= c && c <= '9') {
            proof {
                assert(digits[i - start] == c);
            }
            return None;
        }
        value = value * 10 + (c as u64 - 48);
        proof {
            assert(all_digits(next)) by {
                assert forall|j: int| 0 <= j < next.len() implies '0' <= #[trigger] next[j] <= '9' by {
                    if j < prefix.len() {
                        assert(next[j] == prefix[j]);
                    }
                }
            }
        }
        if value > 0xFFFF_FFFF {
            proof {
                if all_digits(digits) {
                    lemma_digits_mono(digits, i + 1 - start);
                    assert(digits.subrange(0, i + 1 - start) =~= next);
                }
            }
            return None;
        }
        i += 1;
    }
    proof {
        assert(s@.subrange(start as int, i as int) =~= digits);
    }
    Some(value as u32)
}


/// A piece letter: `pnbrqk` for black, `PNBRQK` for white.
pub open spec fn is_piece_letter(c: char) -> bool {
    c == 'p' || c == 'n' || c == 'b' || c == 'r' || c == 'q' || c == 'k' || c == 'P' || c == 'N' || c == 'B'
        || c == 'R' || c == 'Q' || c == 'K'
}

/// A digit from 1 to 8, counting empty squares.
pub open spec fn is_rank_digit(c: char) -> bool {
    '1' <= c <= '8'
}

/// The first character of a rank that is neither a digit from 1 to 8 nor a
/// piece letter.
pub open spec fn first_bad(rank: Seq<char>) -> Option<char>
    decreases rank.len(),
{
    if rank.len() == 0 {
        None
    } else {
        match first_bad(rank.drop_last()) {
            Some(c) => Some(c),
            None => if is_rank_digit(rank.last()) || is_piece_letter(rank.last()) {
                None
            } else {
                Some(rank.last())
            },
        }
    }
}

/// The number of files that a rank covers: each digit its value, each
/// other character one.
pub open spec fn file_count(rank: Seq<char>) -> int
    decreases rank.len(),
{
    if rank.len() == 0 {
        0
    } else {
        file_count(rank.drop_last()) + if is_rank_digit(rank.last()) {
            digit_value(rank.last())
        } else {
            1
        }
    }
}

/// The digit naming a number from 0 to 9.
pub open spec fn digit_char(n: int) -> char {
    (n + 48) as char
}

/// What is wrong with rank number `n` of a piece placement, if anything.
pub open spec fn rank_error(rank: Seq<char>, n: int) -> Option<Seq<char>> {
    match first_bad(rank) {
        Some(c) => Some(
            "Invalid FEN piece placement character '"@ + seq![c] + "' in rank "@ + seq![digit_char(n)] + "."@,
        ),
        None => if file_count(rank) != 8 {
            Some("FEN rank "@ + seq![digit_char(n)] + " must contain exactly 8 files."@)
        } else {
            None
        },
    }
}

/// The first error among ranks `i..8`.
pub open spec fn ranks_error(ranks: Seq<Seq<char>>, i: int) -> Option<Seq<char>>
    decreases 8 - i,
{
    if i >= 8 {
        None
    } else {
        match rank_error(ranks[i], 8 - i) {
            Some(e) => Some(e),
            None => ranks_error(ranks, i + 1),
        }
    }
}

/// What is wrong with a piece placement field, if anything.
pub open spec fn placement_error(p: Seq<char>) -> Option<Seq<char>> {
    let ranks = slash_fields(p);
    if ranks.len() != 8 {
        Some("FEN piece placement must contain 8 ranks."@)
    } else {
        ranks_error(ranks, 0)
    }
}

/// The flag of a castling letter.
pub open spec fn castling_letter_flag(c: char) -> Option<u8> {
    if c == 'K' {
        Some(1u8)
    } else if c == 'Q' {
        Some(2u8)
    } else if c == 'k' {
        Some(4u8)
    } else if c == 'q' {
        Some(8u8)
    } else {
        None
    }
}

/// The first error among castling letters `i..`, given the flags seen.
pub open spec fn castling_scan(c: Seq<char>, i: int, seen: u8) -> Option<Seq<char>>
    decreases c.len() - i,
{
    if i >= c.len() || i < 0 {
        None
    } else {
        match castling_letter_flag(c[i]) {
            None => Some("Invalid FEN castling right '"@ + seq![c[i]] + "'."@),
            Some(f) => if seen & f != 0 {
                Some("Duplicate FEN castling right '"@ + seq![c[i]] + "'."@)
            } else {
                castling_scan(c, i + 1, seen | f)
            },
        }
    }
}

/// What is wrong with a castling field, if anything.
pub open spec fn castling_error(c: Seq<char>) -> Option<Seq<char>> {
    if c == seq!['-'] {
        None
    } else {
        castling_scan(c, 0, 0)
    }
}

/// What is wrong with a FEN string, if anything: its first error, in the
/// order the fields are checked.
pub open spec fn fen_error(s: Seq<char>) -> Option<Seq<char>> {
    let f = ws_fields(s);
    if f.len() != 6 {
        Some("FEN string must have 6 space-separated fields."@)
    } else if placement_error(f[0]) is Some {
        placement_error(f[0])
    } else if f[1] != seq!['w'] && f[1] != seq!['b'] {
        Some("FEN active color must be 'w' or 'b'."@)
    } else if castling_error(f[2]) is Some {
        castling_error(f[2])
    } else if f[3] != seq!['-'] && !crate::utils::is_algebraic(f[3]) {
        Some("Invalid FEN en passant square '"@ + f[3] + "'."@)
    } else if parse_u32_spec(f[4]) is None {
        Some("Invalid FEN halfmove clock '"@ + f[4] + "'."@)
    } else if parse_u32_spec(f[5]) is None || parse_u32_spec(f[5]) == Some(0u32) {
        Some("Invalid FEN fullmove number '"@ + f[5] + "'."@)
    } else {
        None
    }
}


/// A string holding the given characters.
pub fn string_of(v: &Vec<char>) -> (r: String)
    ensures
        r@ == v@,
{
    let mut r = String::new();
    let mut i: usize = 0;
    while i < v.len()
        invariant
            i <= v.len(),
            r@ == v@.subrange(0, i as int),
        decreases v.len() - i,
    {
        push_char(&mut r, v[i]);
        i += 1;
        proof {
            assert(r@ =~= v@.subrange(0, i as int));
        }
    }
    proof {
        assert(r@ =~= v@);
    }
    r
}

/// Checks rank number `n` of a piece placement.
fn check_rank(rank: &Vec<char>, n: usize) -> (r: Option<String>)
    requires
        1 <= n <= 8,
    ensures
        r is None <==> rank_error(rank@, n as int) is None,
        r matches Some(e) ==> rank_error(rank@, n as int) == Some(e@),
{
    let mut count: u32 = 0;
    let mut i: usize = 0;
    while i < rank.len()
        invariant
            i <= rank.len(),
            1 <= n <= 8,
            first_bad(rank@.subrange(0, i as int)) is None,
            count == if file_count(rank@.subrange(0, i as int)) < 9 {
                file_count(rank@.subrange(0, i as int))
            } else {
                9
            },
            file_count(rank@.subrange(0, i as int)) >= 0,
        decreases rank.len() - i,
    {
        let c = rank[i];
        let ghost prefix = rank@.subrange(0, i as int);
        let ghost next = rank@.subrange(0, i + 1);
        proof {
            assert(next.drop_last() =~= prefix);
        }
        if '1' <= c && c <= '8' {
            let v = c as u32 - 48;
            count = if count + v < 9 { count + v } else { 9 };
        } else if c == 'p' || c == 'n' || c == 'b' || c == 'r' || c == 'q' || c == 'k' || c == 'P' || c == 'N'
            || c == 'B' || c == 'R' || c == 'Q' || c == 'K' {
            count = if count + 1 < 9 { count + 1 } else { 9 };
        } else {
            let mut e = String::from_str("Invalid FEN piece placement character '");
            push_char(&mut e, c);
            e.append("' in rank ");
            push_char(&mut e, ((n as u8) + 48) as char);
            e.append(".");
            proof {
                let rest = rank@.subrange(i + 1, rank@.len() as int);
                lemma_first_bad_extend(rank@, i as int + 1);
                assert(e@ =~= "Invalid FEN piece placement character '"@ + seq![c] + "' in rank "@ + seq![
                    digit_char(n as int),
                ] + "."@);
            }
            return Some(e);
        }
        i += 1;
    }
    proof {
        assert(rank@.subrange(0, i as int) =~= rank@);
    }
    if count != 8 {
        let mut e = String::from_str("FEN rank ");
        push_char(&mut e, ((n as u8) + 48) as char);
        e.append(" must contain exactly 8 files.");
        proof {
            assert(e@ =~= "FEN rank "@ + seq![digit_char(n as int)] + " must contain exactly 8 files."@);
        }
        return Some(e);
    }
    None
}

/// Once a prefix has a bad character, so has the whole rank, the same one.
proof fn lemma_first_bad_extend(rank: Seq<char>, i: int)
    requires
        0 <= i <= rank.len(),
        first_bad(rank.subrange(0, i)) is Some,
    ensures
        first_bad(rank) == first_bad(rank.subrange(0, i)),
    decreases rank.len() - i,
{
    if i < rank.len() {
        let next = rank.subrange(0, i + 1);
        assert(next.drop_last() =~= rank.subrange(0, i));
        lemma_first_bad_extend(rank, i + 1);
    } else {
        assert(rank.subrange(0, i) =~= rank);
    }
}

/// Checks the castling field.
fn check_castling(c: &Vec<char>) -> (r: Option<String>)
    ensures
        r is None <==> castling_error(c@) is None,
        r matches Some(e) ==> castling_error(c@) == Some(e@),
{
    if c.len() == 1 && c[0] == '-' {
        proof {
            assert(c@ =~= seq!['-']);
        }
        return None;
    }
    proof {
        if c@ == seq!['-'] {
            assert(c@.len() == 1 && c@[0] == '-');
        }
    }
    let mut seen: u8 = 0;
    let mut i: usize = 0;
    while i < c.len()
        invariant
            i <= c.len(),
            c@ != seq!['-'],
            castling_error(c@) == castling_scan(c@, i as int, seen),
        decreases c.len() - i,
    {
        let ch = c[i];
        let flag: u8 = if ch == 'K' {
            1
        } else if ch == 'Q' {
            2
        } else if ch == 'k' {
            4
        } else if ch == 'q' {
            8
        } else {
            let mut e = String::from_str("Invalid FEN castling right '");
            push_char(&mut e, ch);
            e.append("'.");
            proof {
                assert(e@ =~= "Invalid FEN castling right '"@ + seq![ch] + "'."@);
            }
            return Some(e);
        };
        if seen & flag != 0 {
            let mut e = String::from_str("Duplicate FEN castling right '");
            push_char(&mut e, ch);
            e.append("'.");
            proof {
                assert(e@ =~= "Duplicate FEN castling right '"@ + seq![ch] + "'."@);
            }
            return Some(e);
        }
        seen = seen | flag;
        i += 1;
    }
    None
}

/// Checks the piece placement field.
fn check_placement(p: &Vec<char>) -> (r: Option<String>)
    ensures
        r is None <==> placement_error(p@) is None,
        r matches Some(e) ==> placement_error(p@) == Some(e@),
{
    let spans = split_slash_spans(p);
    let ghost ranks = slash_fields(p@);
    proof {
        let (sp, start) = slash_scan(p@, p@.len());
        assert(ranks.len() == spans.len());
    }
    if spans.len() != 8 {
        return Some(String::from_str("FEN piece placement must contain 8 ranks."));
    }
    let mut i: usize = 0;
    while i < 8
        invariant
            i <= 8,
            spans.len() == 8,
            ranks == slash_fields(p@),
            ranks.len() == 8,
            forall|k: int| 0 <= k < 8 ==> #[trigger] ranks[k] == p@.subrange(spans@[k].0 as int, spans@[k].1 as int),
            forall|k: int| 0 <= k < spans.len() ==> #[trigger] spans@[k].0 <= spans@[k].1 <= p.len(),
            placement_error(p@) == ranks_error(ranks, i as int),
        decreases 8 - i,
    {
        let (a, b) = spans[i];
        let rank = slice_chars(p, a, b);
        let result = check_rank(&rank, 8 - i);
        if result.is_some() {
            return result;
        }
        i += 1;
    }
    None
}


/// The six fields of a FEN string, checked.
pub struct Fen {
    piece_placement: String,
    active_color: String,
    castling_rights: String,
    en_passant: String,
    halfmove_clock: String,
    fullmove_number: String,
}

impl View for Fen {
    type V = Seq<Seq<char>>;

    /// The six fields, in order.
    closed spec fn view(&self) -> Seq<Seq<char>> {
        seq![
            self.piece_placement@,
            self.active_color@,
            self.castling_rights@,
            self.en_passant@,
            self.halfmove_clock@,
            self.fullmove_number@,
        ]
    }
}

/// The fields of a FEN string that passes every check.
pub open spec fn fen_ok(f: Seq<Seq<char>>) -> bool {
    &&& f.len() == 6
    &&& placement_error(f[0]) is None
    &&& (f[1] == seq!['w'] || f[1] == seq!['b'])
    &&& castling_error(f[2]) is None
    &&& (f[3] == seq!['-'] || crate::utils::is_algebraic(f[3]))
    &&& parse_u32_spec(f[4]) is Some
    &&& parse_u32_spec(f[5]) is Some
    &&& parse_u32_spec(f[5]) != Some(0u32)
}

impl Fen {
    /// The fields are those of a FEN string that passes every check.
    pub closed spec fn well_formed(&self) -> bool {
        fen_ok(self@)
    }

    /// Splits a FEN string into its six fields and checks each, failing with
    /// the first error found.
    pub fn from_str(fen_string: &str) -> (r: Result<Self, String>)
        ensures
            match r {
                Ok(f) => fen_error(fen_string@) is None && f@ == ws_fields(fen_string@) && fen_ok(f@),
                Err(e) => fen_error(fen_string@) == Some(e@),
            },
    {
        let chars = chars_of(fen_string);
        let spans = split_whitespace_spans(&chars);
        let ghost f = ws_fields(fen_string@);
        if spans.len() != 6 {
            proof {
                assert(int_spans(spans@).len() == spans@.len());
            }
            return Err(String::from_str("FEN string must have 6 space-separated fields."));
        }
        proof {
            assert(int_spans(spans@).len() == spans@.len());
            assert forall|k: int| 0 <= k < 6 implies #[trigger] f[k] == chars@.subrange(
                spans@[k].0 as int,
                spans@[k].1 as int,
            ) by {
                assert(int_spans(spans@)[k] == (spans@[k].0 as int, spans@[k].1 as int));
            }
        }
        let placement = slice_chars(&chars, spans[0].0, spans[0].1);
        let active = slice_chars(&chars, spans[1].0, spans[1].1);
        let castling = slice_chars(&chars, spans[2].0, spans[2].1);
        let en_passant = slice_chars(&chars, spans[3].0, spans[3].1);
        let halfmove = slice_chars(&chars, spans[4].0, spans[4].1);
        let fullmove = slice_chars(&chars, spans[5].0, spans[5].1);
        if let Some(e) = check_placement(&placement) {
            return Err(e);
        }
        if !(active.len() == 1 && (active[0] == 'w' || active[0] == 'b')) {
            proof {
                if active@ == seq!['w'] || active@ == seq!['b'] {
                    assert(active@.len() == 1);
                }
            }
            return Err(String::from_str("FEN active color must be 'w' or 'b'."));
        }
        proof {
            if active@[0] == 'w' {
                assert(active@ =~= seq!['w']);
            } else {
                assert(active@ =~= seq!['b']);
            }
        }
        if let Some(e) = check_castling(&castling) {
            return Err(e);
        }
        let en_passant_dash = en_passant.len() == 1 && en_passant[0] == '-';
        proof {
            if en_passant_dash {
                assert(en_passant@ =~= seq!['-']);
            }
            if en_passant@ == seq!['-'] {
                assert(en_passant@.len() == 1);
            }
        }
        if !en_passant_dash && !(en_passant.len() == 2 && 'a' <= en_passant[0] && en_passant[0] <= 'h' && '1'
            <= en_passant[1] && en_passant[1] <= '8') {
            let mut e = String::from_str("Invalid FEN en passant square '");
            let field = string_of(&en_passant);
            e.append(field.as_str());
            e.append("'.");
            proof {
                assert(e@ =~= "Invalid FEN en passant square '"@ + en_passant@ + "'."@);
            }
            return Err(e);
        }
        if parse_u32(&halfmove).is_none() {
            let mut e = String::from_str("Invalid FEN halfmove clock '");
            let field = string_of(&halfmove);
            e.append(field.as_str());
            e.append("'.");
            proof {
                assert(e@ =~= "Invalid FEN halfmove clock '"@ + halfmove@ + "'."@);
            }
            return Err(e);
        }
        match parse_u32(&fullmove) {
            Some(0) | None => {
                let mut e = String::from_str("Invalid FEN fullmove number '");
                let field = string_of(&fullmove);
                e.append(field.as_str());
                e.append("'.");
                proof {
                    assert(e@ =~= "Invalid FEN fullmove number '"@ + fullmove@ + "'."@);
                }
                return Err(e);
            },
            Some(_) => {},
        }
        let fen = Fen {
            piece_placement: string_of(&placement),
            active_color: string_of(&active),
            castling_rights: string_of(&castling),
            en_passant: string_of(&en_passant),
            halfmove_clock: string_of(&halfmove),
            fullmove_number: string_of(&fullmove),
        };
        proof {
            assert(fen@ =~= f);
        }
        Ok(fen)
    }
}


/// The piece named by a piece letter: uppercase for white.
pub open spec fn letter_piece(c: char) -> (PieceType, Color) {
    let color = if 'A' <= c <= 'Z' {
        Color::White
    } else {
        Color::Black
    };
    let lower = if 'A' <= c <= 'Z' {
        ((c as u32) + 32) as char
    } else {
        c
    };
    let piece_type = if lower == 'p' {
        PieceType::Pawn
    } else if lower == 'n' {
        PieceType::Knight
    } else if lower == 'b' {
        PieceType::Bishop
    } else if lower == 'r' {
        PieceType::Rook
    } else if lower == 'q' {
        PieceType::Queen
    } else {
        PieceType::King
    };
    (piece_type, color)
}

/// Reading the first `i` characters of rank number `row` from the top: the
/// pieces found, with their squares, and the file reached.
pub open spec fn rank_scan(rank: Seq<char>, row: int, i: int) -> (Seq<(usize, PieceType, Color)>, int)
    decreases i,
{
    if i <= 0 {
        (seq![], 0)
    } else {
        let (pieces, file) = rank_scan(rank, row, i - 1);
        let c = rank[i - 1];
        if is_rank_digit(c) {
            (pieces, file + digit_value(c))
        } else {
            let (pt, color) = letter_piece(c);
            (pieces.push((((7 - row) * 8 + file) as usize, pt, color)), file + 1)
        }
    }
}

/// The pieces of the first `k` ranks of a piece placement, top rank first.
pub open spec fn placement_upto(ranks: Seq<Seq<char>>, k: int) -> Seq<(usize, PieceType, Color)>
    decreases k,
{
    if k <= 0 {
        seq![]
    } else {
        placement_upto(ranks, k - 1) + rank_scan(ranks[k - 1], k - 1, ranks[k - 1].len() as int).0
    }
}

/// The pieces of a piece placement field.
pub open spec fn placement_pieces(p: Seq<char>) -> Seq<(usize, PieceType, Color)> {
    placement_upto(slash_fields(p), 8)
}

/// Reading a valid rank keeps its pieces on its row, in increasing order of
/// square, left of the file reached.
proof fn lemma_rank_scan(rank: Seq<char>, row: int, i: int)
    requires
        0 <= row < 8,
        0 <= i <= rank.len(),
        first_bad(rank) is None,
        file_count(rank) == 8,
    ensures
        rank_scan(rank, row, i).1 == file_count(rank.subrange(0, i)),
        0 <= file_count(rank.subrange(0, i)) <= 8,
        forall|a: int|
            0 <= a < rank_scan(rank, row, i).0.len() ==> (7 - row) * 8 <= (#[trigger] rank_scan(rank, row, i).0[a]).0
                < (7 - row) * 8 + rank_scan(rank, row, i).1,
        forall|a: int, b: int|
            0 <= a < b < rank_scan(rank, row, i).0.len() ==> (#[trigger] rank_scan(rank, row, i).0[a]).0
                < (#[trigger] rank_scan(rank, row, i).0[b]).0,
    decreases i,
{
    lemma_file_count_mono(rank, i, rank.len() as int);
    assert(rank.subrange(0, rank.len() as int) =~= rank);
    if i > 0 {
        lemma_rank_scan(rank, row, i - 1);
        let next = rank.subrange(0, i);
        assert(next.drop_last() =~= rank.subrange(0, i - 1));
        lemma_first_bad_prefix(rank, i);
        assert(first_bad(next) is None);
        assert(first_bad(next.drop_last()) is None);
    }
}

/// File counts grow along a rank of digits and letters.
proof fn lemma_file_count_mono(rank: Seq<char>, i: int, j: int)
    requires
        0 <= i <= j <= rank.len(),
        first_bad(rank) is None,
    ensures
        0 <= file_count(rank.subrange(0, i)) <= file_count(rank.subrange(0, j)),
    decreases j - i,
{
    if i < j {
        lemma_file_count_mono(rank, i, j - 1);
        let next = rank.subrange(0, j);
        assert(next.drop_last() =~= rank.subrange(0, j - 1));
        lemma_first_bad_prefix(rank, j);
    } else {
        lemma_file_count_nonneg(rank.subrange(0, i));
        lemma_first_bad_prefix(rank, i);
    }
}

proof fn lemma_file_count_nonneg(s: Seq<char>)
    ensures
        file_count(s) >= 0 || first_bad(s) is Some,
    decreases s.len(),
{
    if s.len() > 0 {
        lemma_file_count_nonneg(s.drop_last());
    }
}

/// A prefix of a rank without bad characters has none either.
proof fn lemma_first_bad_prefix(rank: Seq<char>, i: int)
    requires
        0 <= i <= rank.len(),
        first_bad(rank) is None,
    ensures
        first_bad(rank.subrange(0, i)) is None,
{
    if first_bad(rank.subrange(0, i)) is Some {
        lemma_first_bad_extend(rank, i);
    }
}


/// Every rank from `i` on is valid when none has an error.
proof fn lemma_ranks_ok(ranks: Seq<Seq<char>>, i: int, k: int)
    requires
        0 <= i <= k < 8,
        ranks_error(ranks, i) is None,
    ensures
        rank_error(ranks[k], 8 - k) is None,
    decreases k - i,
{
    if i < k {
        lemma_ranks_ok(ranks, i + 1, k);
    }
}

/// The pieces of the first `k` valid ranks stand on distinct squares of
/// the rows already read.
pub(crate) proof fn lemma_placement_valid(ranks: Seq<Seq<char>>, k: int)
    requires
        0 <= k <= 8,
        ranks.len() == 8,
        ranks_error(ranks, 0) is None,
    ensures
        list_valid(placement_upto(ranks, k)),
        forall|a: int|
            0 <= a < placement_upto(ranks, k).len() ==> (8 - k) * 8 <= (#[trigger] placement_upto(ranks, k)[a]).0,
    decreases k,
{
    if k > 0 {
        lemma_placement_valid(ranks, k - 1);
        lemma_ranks_ok(ranks, 0, k - 1);
        let rank = ranks[k - 1];
        lemma_rank_scan(rank, k - 1, rank.len() as int);
        assert(rank.subrange(0, rank.len() as int) =~= rank);
        let old_list = placement_upto(ranks, k - 1);
        let add = rank_scan(rank, k - 1, rank.len() as int).0;
        let list = placement_upto(ranks, k);
        assert(list == old_list + add);
        assert forall|a: int| 0 <= a < list.len() implies (#[trigger] list[a]).0 < 64 && (8 - k) * 8 <= list[a].0 by {
            if a >= old_list.len() {
                assert(list[a] == add[a - old_list.len()]);
            } else {
                assert(list[a] == old_list[a]);
            }
        }
        assert forall|a: int, b: int| 0 <= a < b < list.len() implies (#[trigger] list[a]).0 != (#[trigger] list[b]).0 by {
            if b < old_list.len() {
                assert(list[a] == old_list[a]);
                assert(list[b] == old_list[b]);
            } else if a >= old_list.len() {
                assert(list[a] == add[a - old_list.len()]);
                assert(list[b] == add[b - old_list.len()]);
            } else {
                assert(list[a] == old_list[a]);
                assert(list[b] == add[b - old_list.len()]);
            }
        }
    }
}

/// The piece named by a piece letter.
fn piece_of_letter(c: char) -> (r: (PieceType, Color))
    requires
        is_piece_letter(c),
    ensures
        r == letter_piece(c),
{
    let color = if 'A' <= c && c <= 'Z' {
        Color::White
    } else {
        Color::Black
    };
    let lower = if 'A' <= c && c <= 'Z' {
        ((c as u32) + 32) as u8 as char
    } else {
        c
    };
    let piece_type = if lower == 'p' {
        PieceType::Pawn
    } else if lower == 'n' {
        PieceType::Knight
    } else if lower == 'b' {
        PieceType::Bishop
    } else if lower == 'r' {
        PieceType::Rook
    } else if lower == 'q' {
        PieceType::Queen
    } else {
        PieceType::King
    };
    (piece_type, color)
}

/// The castling rights that the letters of a castling field grant, read in
/// order.
pub open spec fn rights_from(c: Seq<char>) -> CastlingRights
    decreases c.len(),
{
    if c.len() == 0 {
        CastlingRights::spec_none()
    } else {
        let r = rights_from(c.drop_last());
        let l = c.last();
        if l == 'K' {
            r.spec_set(true, Color::White, true)
        } else if l == 'Q' {
            r.spec_set(false, Color::White, true)
        } else if l == 'k' {
            r.spec_set(true, Color::Black, true)
        } else if l == 'q' {
            r.spec_set(false, Color::Black, true)
        } else {
            r
        }
    }
}

/// The en passant square of a field: none for `-`.
pub open spec fn en_passant_of(e: Seq<char>) -> Option<u8> {
    if e == seq!['-'] {
        None
    } else {
        Some(crate::utils::algebraic_value(e) as u8)
    }
}

/// The number of halfmoves played before a position, from the fullmove
/// number and the side to move.
pub open spec fn halfmove_of(f: Seq<Seq<char>>) -> int {
    2 * (parse_u32_spec(f[5]).unwrap() - 1) + if f[1] == seq!['w'] {
        0int
    } else {
        1
    }
}

impl Fen {
    /// The pieces of the piece placement field, top rank first and each
    /// rank from the a-file, with their squares.
    pub fn piece_placement(&self) -> (r: Vec<(usize, PieceType, Color)>)
        requires
            fen_ok(self@),
        ensures
            r@ == placement_pieces(self@[0]),
            list_valid(r@),
    {
        let chars = chars_of(self.piece_placement.as_str());
        let spans = split_slash_spans(&chars);
        let ghost ranks = slash_fields(chars@);
        proof {
            assert(chars@ == self@[0]);
            assert(int_spans(spans@).len() == spans@.len());
            assert forall|k: int| 0 <= k < spans@.len() implies #[trigger] ranks[k] == chars@.subrange(
                spans@[k].0 as int,
                spans@[k].1 as int,
            ) by {
                assert(int_spans(spans@)[k] == (spans@[k].0 as int, spans@[k].1 as int));
            }
            lemma_placement_valid(ranks, 8);
        }
        let mut pieces: Vec<(usize, PieceType, Color)> = Vec::new();
        let mut rank_index: usize = 0;
        while rank_index < 8
            invariant
                rank_index <= 8,
                spans.len() == 8,
                ranks == slash_fields(chars@),
                ranks.len() == 8,
                ranks_error(ranks, 0) is None,
                forall|k: int| #![trigger spans@[k]] 0 <= k < spans@.len() ==> spans@[k].0 <= spans@[k].1 && spans@[k].1 <= chars@.len(),
                forall|k: int| 0 <= k < 8 ==> #[trigger] ranks[k] == chars@.subrange(spans@[k].0 as int, spans@[k].1 as int),
                pieces@ == placement_upto(ranks, rank_index as int),
            decreases 8 - rank_index,
        {
            let (a, b) = spans[rank_index];
            let ghost rank = ranks[rank_index as int];
            proof {
                lemma_ranks_ok(ranks, 0, rank_index as int);
                lemma_rank_scan(rank, rank_index as int, rank.len() as int);
                assert(rank.subrange(0, rank.len() as int) =~= rank);
            }
            let ghost base = pieces@;
            let mut file: usize = 0;
            let mut i = a;
            while i < b
                invariant
                    a <= i <= b <= chars.len(),
                    rank_index < 8,
                    rank == chars@.subrange(a as int, b as int),
                    first_bad(rank) is None,
                    file_count(rank) == 8,
                    pieces@ == base + rank_scan(rank, rank_index as int, i - a).0,
                    file == rank_scan(rank, rank_index as int, i - a).1,
                decreases b - i,
            {
                let c = chars[i];
                proof {
                    lemma_rank_scan(rank, rank_index as int, i + 1 - a);
                    lemma_rank_scan(rank, rank_index as int, i - a);
                    assert(rank[i - a] == c);
                    let next = rank.subrange(0, i + 1 - a);
                    lemma_first_bad_prefix(rank, i + 1 - a);
                    assert(next.drop_last() =~= rank.subrange(0, i - a));
                }
                if '1' <= c && c <= '8' {
                    file = file + (c as u32 - 48) as usize;
                } else {
                    let (piece_type, color) = piece_of_letter(c);
                    pieces.push(((7 - rank_index) * 8 + file, piece_type, color));
                    file = file + 1;
                }
                i += 1;
                proof {
                    assert(pieces@ =~= base + rank_scan(rank, rank_index as int, i - a).0);
                }
            }
            rank_index += 1;
            proof {
                assert(pieces@ =~= placement_upto(ranks, rank_index as int));
            }
        }
        pieces
    }

    /// The side to move: white for `w`.
    pub fn active_color(&self) -> (r: Color)
        requires
            fen_ok(self@),
        ensures
            r == if self@[1] == seq!['w'] {
                Color::White
            } else {
                Color::Black
            },
    {
        let s = self.active_color.as_str();
        proof {
            assert(s@ == self@[1]);
        }
        if s.get_char(0) == 'w' {
            proof {
                assert(s@ =~= seq!['w']);
            }
            Color::White
        } else {
            Color::Black
        }
    }

    /// The castling rights that the castling field grants.
    pub fn castling_rights(&self) -> (r: CastlingRights)
        requires
            fen_ok(self@),
        ensures
            r == rights_from(self@[2]),
    {
        let chars = chars_of(self.castling_rights.as_str());
        let mut rights = CastlingRights::empty();
        let mut i: usize = 0;
        while i < chars.len()
            invariant
                i <= chars.len(),
                rights == rights_from(chars@.subrange(0, i as int)),
            decreases chars.len() - i,
        {
            let c = chars[i];
            proof {
                let next = chars@.subrange(0, i + 1);
                assert(next.drop_last() =~= chars@.subrange(0, i as int));
            }
            if c == 'K' {
                rights.set_kingside(Color::White, true);
            } else if c == 'Q' {
                rights.set_queenside(Color::White, true);
            } else if c == 'k' {
                rights.set_kingside(Color::Black, true);
            } else if c == 'q' {
                rights.set_queenside(Color::Black, true);
            }
            i += 1;
        }
        proof {
            assert(chars@.subrange(0, i as int) =~= chars@);
            assert(chars@ == self@[2]);
        }
        rights
    }

    /// The en passant square of the en passant field.
    pub fn en_passant(&self) -> (r: Option<u8>)
        requires
            fen_ok(self@),
        ensures
            r == en_passant_of(self@[3]),
            r matches Some(e) ==> e < 64,
    {
        let s = self.en_passant.as_str();
        proof {
            assert(s@ == self@[3]);
        }
        if s.unicode_len() == 1 {
            proof {
                assert(s@ =~= seq!['-']);
            }
            return None;
        }
        proof {
            if s@ == seq!['-'] {
                assert(s@.len() == 1);
            }
        }
        let file = s.get_char(0);
        let rank = s.get_char(1);
        let file_index = (file as u32 - 97) as usize;
        let rank_index = (rank as u32 - 49) as usize;
        Some((rank_index * 8 + file_index) as u8)
    }

    /// The value of the halfmove clock field.
    pub fn halfmove_clock(&self) -> (r: u32)
        requires
            fen_ok(self@),
        ensures
            Some(r) == parse_u32_spec(self@[4]),
    {
        let chars = chars_of(self.halfmove_clock.as_str());
        proof {
            assert(chars@ == self@[4]);
        }
        parse_u32(&chars).unwrap()
    }

    /// The value of the fullmove number field.
    pub fn fullmove_number(&self) -> (r: u32)
        requires
            fen_ok(self@),
        ensures
            Some(r) == parse_u32_spec(self@[5]),
            r >= 1,
    {
        let chars = chars_of(self.fullmove_number.as_str());
        proof {
            assert(chars@ == self@[5]);
        }
        parse_u32(&chars).unwrap()
    }
}


/// The arguments a FEN string's fields give to `Board::new`: the pieces,
/// the castling rights, the en passant square, the halfmove number and the
/// fifty-move counter.
pub open spec fn new_error_of(f: Seq<Seq<char>>) -> Option<Seq<char>> {
    new_error(
        placement_pieces(f[0]),
        rights_from(f[2]),
        en_passant_of(f[3]),
        halfmove_of(f) as u32,
        parse_u32_spec(f[4]).unwrap(),
    )
}

impl Board {
    /// Sets up a board from a FEN string.
    pub fn from_fen(fen: &str) -> (r: Result<Board, String>)
        requires
            fen_error(fen@) is None ==> parse_u32_spec(ws_fields(fen@)[5]).unwrap() <= 0x8000_0000,
        ensures
            match r {
                Ok(b) => {
                    let f = ws_fields(fen@);
                    &&& fen_error(fen@) is None
                    &&& new_error_of(f) is None
                    &&& b.valid()
                    &&& forall|sq: int| is_square(sq) ==> #[trigger] b.at(sq) == list_at(placement_pieces(f[0]), sq)
                    &&& b.spec_active() == if f[1] == seq!['w'] {
                        Color::White
                    } else {
                        Color::Black
                    }
                    &&& b.spec_halfmove() == halfmove_of(f)
                    &&& b.history().len() == 0
                    &&& b.metas().len() == 1
                    &&& b.meta().castling_rights == rights_from(f[2])
                    &&& b.meta().en_passant_square == en_passant_of(f[3])
                    &&& Some(b.meta().rule50) == parse_u32_spec(f[4])
                },
                Err(e) => match fen_error(fen@) {
                    Some(m) => e@ == "Invalid FEN: "@ + m,
                    None => new_error_of(ws_fields(fen@)) is Some && e@ == "Invalid FEN position: "@
                        + new_error_of(ws_fields(fen@)).unwrap(),
                },
            },
    {
        let fen = match Fen::from_str(fen) {
            Ok(f) => f,
            Err(error) => {
                let mut e = String::from_str("Invalid FEN: ");
                e.append(error.as_str());
                return Err(e);
            },
        };
        let pieces = fen.piece_placement();
        let fullmove = fen.fullmove_number();
        let active = fen.active_color();
        let halfmove_number = 2 * (fullmove - 1) + active.index() as u32;
        let rights = fen.castling_rights();
        let en_passant = fen.en_passant();
        let rule50 = fen.halfmove_clock();
        match Board::new(pieces.as_slice(), rights, en_passant, halfmove_number, rule50) {
            Ok(b) => {
                proof {
                    b.lemma_meta_last();
                }
                Ok(b)
            },
            Err(error) => {
                let mut e = String::from_str("Invalid FEN position: ");
                e.append(error.as_str());
                Err(e)
            },
        }
    }
}


/// The FEN letter of a piece: uppercase for white.
pub open spec fn fen_letter(p: (PieceType, Color)) -> char {
    let c = match p.0 {
        PieceType::Pawn => 'p',
        PieceType::Knight => 'n',
        PieceType::Bishop => 'b',
        PieceType::Rook => 'r',
        PieceType::Queen => 'q',
        PieceType::King => 'k',
    };
    if p.1 == Color::White {
        ((c as u32) - 32) as char
    } else {
        c
    }
}

/// The run of empty squares pending, as a digit, if any.
pub open spec fn empties_text(empties: int) -> Seq<char> {
    if empties > 0 {
        seq![digit_char(empties)]
    } else {
        seq![]
    }
}

/// The FEN text of files `file..8` of a rank, with `empties` empty squares
/// already counted before them.
pub open spec fn rank_text(b: Board, rank: int, file: int, empties: int) -> Seq<char>
    decreases 8 - file,
{
    if file >= 8 {
        empties_text(empties)
    } else {
        match b.at(rank * 8 + file) {
            Some(p) => empties_text(empties) + seq![fen_letter(p)] + rank_text(b, rank, file + 1, 0),
            None => rank_text(b, rank, file + 1, empties + 1),
        }
    }
}

/// The FEN text of ranks `rank` down to the first, separated by slashes.
pub open spec fn placement_text(b: Board, rank: int) -> Seq<char>
    decreases rank,
{
    if rank <= 0 {
        rank_text(b, 0, 0, 0)
    } else {
        rank_text(b, rank, 0, 0) + seq!['/'] + placement_text(b, rank - 1)
    }
}

/// The decimal digits of a number.
pub open spec fn decimal(n: nat) -> Seq<char>
    decreases n,
{
    if n < 10 {
        seq![digit_char(n as int)]
    } else {
        decimal(n / 10) + seq![digit_char((n % 10) as int)]
    }
}

/// The castling field of a set of rights.
pub open spec fn castling_text(r: CastlingRights) -> Seq<char> {
    if forall|k: bool, c: Color| !r.spec_has(k, c) {
        seq!['-']
    } else {
        (if r.spec_has(true, Color::White) { seq!['K'] } else { seq![] }) + (if r.spec_has(false, Color::White) {
            seq!['Q']
        } else {
            seq![]
        }) + (if r.spec_has(true, Color::Black) { seq!['k'] } else { seq![] }) + (if r.spec_has(false, Color::Black) {
            seq!['q']
        } else {
            seq![]
        })
    }
}

/// The FEN string of a board.
pub open spec fn board_fen(b: Board) -> Seq<char> {
    let m = b.meta();
    placement_text(b, 7) + seq![' '] + seq![if b.spec_active() == Color::White { 'w' } else { 'b' }] + seq![' ']
        + castling_text(m.castling_rights) + seq![' '] + match m.en_passant_square {
        Some(e) => crate::pieces::algebraic(e as int),
        None => seq!['-'],
    } + seq![' '] + decimal(m.rule50 as nat) + seq![' '] + decimal((b.spec_halfmove() / 2 + 1) as nat)
}

/// Appends the decimal digits of a number.
pub(crate) fn push_decimal(s: &mut String, n: u32)
    ensures
        final(s)@ == old(s)@ + decimal(n as nat),
    decreases n,
{
    if n >= 10 {
        push_decimal(s, n / 10);
    }
    push_char(s, ((n % 10) as u8 + 48) as char);
    proof {
        assert(final(s)@ =~= old(s)@ + decimal(n as nat)) by {
            if n >= 10 {
            }
        }
    }
}

impl Board {
    /// Appends the FEN text of one rank.
    fn push_rank_text(&self, fen: &mut String, rank: usize)
        requires
            rank < 8,
        ensures
            final(fen)@ == old(fen)@ + rank_text(*self, rank as int, 0, 0),
    {
        let ghost start = fen@;
        let mut empty_count: u8 = 0;
        let mut file: usize = 0;
        while file < 8
            invariant
                rank < 8,
                file <= 8,
                empty_count <= file,
                fen@ + rank_text(*self, rank as int, file as int, empty_count as int) == start + rank_text(
                    *self,
                    rank as int,
                    0,
                    0,
                ),
            decreases 8 - file,
        {
            let square = rank * 8 + file;
            let ghost before = fen@;
            let ghost e = empty_count as int;
            match self.piece_at(square) {
                Some((piece_type, color)) => {
                    if empty_count > 0 {
                        push_char(fen, (empty_count + 48) as char);
                        empty_count = 0;
                    }
                    let c = match piece_type {
                        PieceType::Pawn => 'p',
                        PieceType::Knight => 'n',
                        PieceType::Bishop => 'b',
                        PieceType::Rook => 'r',
                        PieceType::Queen => 'q',
                        PieceType::King => 'k',
                    };
                    let letter = if color == Color::White {
                        ((c as u8) - 32) as char
                    } else {
                        c
                    };
                    push_char(fen, letter);
                    proof {
                        assert(letter == fen_letter((piece_type, color)));
                        assert(fen@ =~= before + empties_text(e) + seq![letter]);
                    }
                },
                None => {
                    empty_count += 1;
                },
            }
            file += 1;
        }
        let ghost before = fen@;
        if empty_count > 0 {
            push_char(fen, (empty_count + 48) as char);
        }
        proof {
            assert(fen@ =~= before + empties_text(empty_count as int));
        }
    }

    /// The FEN string of the position.
    pub fn to_fen(&self) -> (r: String)
        requires
            self.wf(),
        ensures
            r@ == board_fen(*self),
    {
        let mut fen = String::new();
        let mut r: usize = 8;
        while r > 0
            invariant
                r <= 8,
                self.wf(),
                fen@ + (if r > 0 {
                    placement_text(*self, r - 1)
                } else {
                    seq![]
                }) == placement_text(*self, 7),
            decreases r,
        {
            let rank = r - 1;
            let ghost start = fen@;
            self.push_rank_text(&mut fen, rank);
            if rank > 0 {
                push_char(&mut fen, '/');
            }
            proof {
                if rank > 0 {
                    assert(fen@ + placement_text(*self, rank - 1) =~= start + placement_text(*self, rank as int));
                } else {
                    assert(fen@ + seq![] =~= start + placement_text(*self, rank as int));
                }
            }
            r -= 1;
        }
        proof {
            assert(fen@ =~= placement_text(*self, 7));
        }
        let ghost p0 = fen@;
        push_char(&mut fen, ' ');
        push_char(&mut fen, if self.active_color() == Color::White { 'w' } else { 'b' });
        push_char(&mut fen, ' ');
        let ghost p1 = fen@;
        let rights = self.castling_rights();
        push_castling_text(&mut fen, rights);
        push_char(&mut fen, ' ');
        let ghost p2 = fen@;
        match self.en_passant_square() {
            Some(square) => {
                proof {
                    self.lemma_meta_last();
                    assert(self.metas()[self.metas().len() - 1].en_passant_square matches Some(e) ==> e < 64);
                }
                let name = crate::utils::square_to_algebraic(square as usize);
                fen.append(name.as_str());
            },
            None => {
                push_char(&mut fen, '-');
            },
        }
        let ghost p3 = fen@;
        push_char(&mut fen, ' ');
        push_decimal(&mut fen, self.rule50());
        push_char(&mut fen, ' ');
        push_decimal(&mut fen, self.halfmove_number() / 2 + 1);
        proof {
            let m = self.meta();
            let ep_text = match m.en_passant_square {
                Some(e) => crate::pieces::algebraic(e as int),
                None => seq!['-'],
            };
            assert(p1 =~= p0 + seq![' '] + seq![if self.spec_active() == Color::White { 'w' } else { 'b' }] + seq![' ']);
            assert(p2 =~= p1 + castling_text(m.castling_rights) + seq![' ']);
            assert(p3 =~= p2 + ep_text);
            assert(fen@ =~= p3 + seq![' '] + decimal(m.rule50 as nat) + seq![' '] + decimal(
                (self.spec_halfmove() / 2 + 1) as nat,
            ));
            assert(fen@ =~= board_fen(*self));
        }
        fen
    }
}


/// The frame line above, between and below the ranks of the board picture.
pub open spec fn frame_line() -> Seq<char> {
    " +---+---+---+---+---+---+---+---+\n"@
}

/// The letter shown for a square of the board picture: that of the piece
/// standing there, or a blank.
pub open spec fn picture_char(p: Option<(PieceType, Color)>) -> char {
    match p {
        Some(pc) => fen_letter(pc),
        None => ' ',
    }
}

/// The cells of a rank of the board picture from `file` on.
pub open spec fn picture_row(b: Board, rank: int, file: int) -> Seq<char>
    decreases 8 - file,
{
    if file < 0 || file >= 8 {
        " |\n"@
    } else {
        " | "@ + seq![picture_char(b.at(rank * 8 + file))] + picture_row(b, rank, file + 1)
    }
}

/// The ranks of the board picture from `rank` down to the first, each
/// under a frame line.
pub open spec fn picture_ranks(b: Board, rank: int) -> Seq<char>
    decreases rank + 1,
{
    if rank < 0 {
        seq![]
    } else {
        frame_line() + picture_row(b, rank, 0) + picture_ranks(b, rank - 1)
    }
}

/// The picture of a board: its FEN line, then its ranks from the eighth
/// down, framed.
pub open spec fn board_picture(b: Board) -> Seq<char> {
    "Board: "@ + board_fen(b) + seq!['\n'] + picture_ranks(b, 7) + frame_line()
}

fn picture_letter(square: Option<(PieceType, Color)>) -> (r: char)
    ensures
        r == picture_char(square),
{
    match square {
        Some((piece_type, color)) => {
            let c = match piece_type {
                PieceType::Pawn => 'p',
                PieceType::Knight => 'n',
                PieceType::Bishop => 'b',
                PieceType::Rook => 'r',
                PieceType::Queen => 'q',
                PieceType::King => 'k',
            };
            if color == Color::White {
                ((c as u8) - 32) as char
            } else {
                c
            }
        },
        None => ' ',
    }
}

impl Board {
    /// A picture of the board in text: the FEN line, then one framed row of
    /// cells per rank from the eighth down, white pieces in capitals.
    pub fn to_picture(&self) -> (r: String)
        requires
            self.wf(),
        ensures
            r@ == board_picture(*self),
    {
        proof {
            reveal_strlit("Board: ");
            reveal_strlit(" +---+---+---+---+---+---+---+---+\n");
            reveal_strlit(" | ");
            reveal_strlit(" |\n");
        }
        let mut s = String::from_str("Board: ");
        let fen = self.to_fen();
        s.append(fen.as_str());
        push_char(&mut s, '\n');
        let ghost head = s@;
        let mut r: usize = 8;
        while r > 0
            invariant
                r <= 8,
                self.wf(),
                s@ + picture_ranks(*self, r - 1) == head + picture_ranks(*self, 7),
            decreases r,
        {
            let rank = r - 1;
            let ghost start = s@;
            s.append(" +---+---+---+---+---+---+---+---+\n");
            let ghost row_start = s@;
            let mut file: usize = 0;
            while file < 8
                invariant
                    rank < 8,
                    file <= 8,
                    s@ + picture_row(*self, rank as int, file as int) == row_start + picture_row(
                        *self,
                        rank as int,
                        0,
                    ),
                decreases 8 - file,
            {
                let ghost before = s@;
                s.append(" | ");
                let c = picture_letter(self.piece_at(rank * 8 + file));
                push_char(&mut s, c);
                proof {
                    assert(s@ =~= before + " | "@ + seq![c]);
                    assert(s@ + picture_row(*self, rank as int, file + 1) =~= before + picture_row(
                        *self,
                        rank as int,
                        file as int,
                    ));
                }
                file += 1;
            }
            s.append(" |\n");
            proof {
                assert(s@ =~= row_start + picture_row(*self, rank as int, 0));
                assert(s@ + picture_ranks(*self, rank - 1) =~= start + picture_ranks(*self, rank as int));
            }
            r -= 1;
        }
        s.append(" +---+---+---+---+---+---+---+---+\n");
        proof {
            assert(s@ =~= board_picture(*self));
        }
        s
    }
}

/// The first `n` binary digits of a word, the most significant first.
pub open spec fn binary_digits(w: u64, n: int) -> Seq<char>
    decreases n,
{
    if n <= 0 {
        seq![]
    } else {
        binary_digits(w, n - 1).push(
            if crate::bitboard::bit(w, (64 - n) as u64) {
                '1'
            } else {
                '0'
            },
        )
    }
}

/// The cells of a rank of a bitboard's picture from `file` on: a cross on
/// each square of the set.
pub open spec fn mark_row(b: Bitboard, rank: int, file: int) -> Seq<char>
    decreases 8 - file,
{
    if file < 0 || file >= 8 {
        " |\n"@
    } else {
        " | "@ + seq![if b.has(rank * 8 + file) { 'X' } else { ' ' }] + mark_row(b, rank, file + 1)
    }
}

/// The ranks of a bitboard's picture from `rank` down to the first.
pub open spec fn mark_ranks(b: Bitboard, rank: int) -> Seq<char>
    decreases rank + 1,
{
    if rank < 0 {
        seq![]
    } else {
        frame_line() + mark_row(b, rank, 0) + mark_ranks(b, rank - 1)
    }
}

/// The picture of a bitboard: its word in binary, then its squares, a cross
/// on each square of the set.
pub open spec fn bitboard_picture(b: Bitboard) -> Seq<char> {
    "Bitboard: "@ + binary_digits(b.0, 64) + seq!['\n'] + mark_ranks(b, 7) + frame_line()
}

impl Bitboard {
    /// A picture of the bitboard in text: the word in 64 binary digits, then
    /// one framed row of cells per rank from the eighth down.
    pub fn to_picture(&self) -> (r: String)
        ensures
            r@ == bitboard_picture(*self),
    {
        proof {
            reveal_strlit("Bitboard: ");
            reveal_strlit(" +---+---+---+---+---+---+---+---+\n");
            reveal_strlit(" | ");
            reveal_strlit(" |\n");
        }
        let mut s = String::from_str("Bitboard: ");
        let ghost start = s@;
        let mut n: usize = 0;
        while n < 64
            invariant
                n <= 64,
                s@ == start + binary_digits(self.0, n as int),
            decreases 64 - n,
        {
            let digit = if (self.0 >> (63 - n) as u64) & 1 == 1 {
                '1'
            } else {
                '0'
            };
            push_char(&mut s, digit);
            n += 1;
            proof {
                assert(s@ =~= start + binary_digits(self.0, n as int));
            }
        }
        push_char(&mut s, '\n');
        let ghost head = s@;
        let mut r: usize = 8;
        while r > 0
            invariant
                r <= 8,
                s@ + mark_ranks(*self, r - 1) == head + mark_ranks(*self, 7),
            decreases r,
        {
            let rank = r - 1;
            let ghost begin = s@;
            s.append(" +---+---+---+---+---+---+---+---+\n");
            let ghost row_start = s@;
            let mut file: usize = 0;
            while file < 8
                invariant
                    rank < 8,
                    file <= 8,
                    s@ + mark_row(*self, rank as int, file as int) == row_start + mark_row(*self, rank as int, 0),
                decreases 8 - file,
            {
                let ghost before = s@;
                s.append(" | ");
                let c = if self.contains(rank * 8 + file) {
                    'X'
                } else {
                    ' '
                };
                push_char(&mut s, c);
                proof {
                    assert(s@ + mark_row(*self, rank as int, file + 1) =~= before + mark_row(
                        *self,
                        rank as int,
                        file as int,
                    ));
                }
                file += 1;
            }
            s.append(" |\n");
            proof {
                assert(s@ =~= row_start + mark_row(*self, rank as int, 0));
                assert(s@ + mark_ranks(*self, rank - 1) =~= begin + mark_ranks(*self, rank as int));
            }
            r -= 1;
        }
        s.append(" +---+---+---+---+---+---+---+---+\n");
        proof {
            assert(s@ =~= bitboard_picture(*self));
        }
        s
    }
}

/// Appends the castling field of a set of rights.
fn push_castling_text(fen: &mut String, rights: CastlingRights)
    ensures
        final(fen)@ == old(fen)@ + castling_text(rights),
{
    let ghost start = fen@;
    if rights.is_empty() {
        push_char(fen, '-');
        proof {
            assert(fen@ =~= start + castling_text(rights));
        }
    } else {
        let ghost a = if rights.spec_has(true, Color::White) { seq!['K'] } else { seq![] };
        let ghost b = if rights.spec_has(false, Color::White) { seq!['Q'] } else { seq![] };
        let ghost c = if rights.spec_has(true, Color::Black) { seq!['k'] } else { seq![] };
        let ghost d = if rights.spec_has(false, Color::Black) { seq!['q'] } else { seq![] };
        if rights.kingside(Color::White) {
            push_char(fen, 'K');
        }
        proof {
            assert(fen@ =~= start + a);
        }
        if rights.queenside(Color::White) {
            push_char(fen, 'Q');
        }
        proof {
            assert(fen@ =~= start + a + b);
        }
        if rights.kingside(Color::Black) {
            push_char(fen, 'k');
        }
        proof {
            assert(fen@ =~= start + a + b + c);
        }
        if rights.queenside(Color::Black) {
            push_char(fen, 'q');
        }
        proof {
            assert(fen@ =~= start + a + b + c + d);
            assert(fen@ =~= start + castling_text(rights));
        }
    }
}

} // verus!
