use vstd::prelude::*;
use vstd::string::*;
use vstd::utf8::{encode_scalar, encode_utf8};
use crate::pieces::{file_char, rank_char, algebraic};

verus! {

/// Appends a character to a string (`String::push`).
#[verifier::external_body]
pub(crate) fn push_char(s: &mut String, c: char)
    ensures
        final(s)@ == old(s)@.push(c),
{
    s.push(c);
}

/// Every character takes at least one byte in UTF-8.
pub proof fn lemma_utf8_len(chars: Seq<char>)
    ensures
        encode_utf8(chars).len() >= chars.len(),
    decreases chars.len(),
{
    if chars.len() > 0 {
        assert(encode_scalar(chars[0] as u32).len() >= 1);
        lemma_utf8_len(chars.drop_first());
    }
}

/// Two ASCII characters take two bytes.
proof fn lemma_ascii_pair_len(chars: Seq<char>)
    requires
        chars.len() == 2,
        (chars[0] as u32) < 128,
        (chars[1] as u32) < 128,
    ensures
        encode_utf8(chars).len() == 2,
{
    let rest = chars.drop_first();
    assert(rest.drop_first() =~= Seq::<char>::empty());
    assert(encode_utf8(rest.drop_first()) =~= Seq::<u8>::empty());
    assert(encode_utf8(rest).len() == 1);
}

/// The message for a malformed square name.
pub open spec fn invalid_square_message(square: Seq<char>) -> Seq<char> {
    "Invalid square: '"@ + square + "'"@
}

/// Whether `s` names a square: a file letter 'a'..'h' followed by a rank
/// digit '1'..'8'.
pub open spec fn is_algebraic(s: Seq<char>) -> bool {
    &&& s.len() == 2
    &&& 'a' <= s[0] <= 'h'
    &&& '1' <= s[1] <= '8'
}

/// The square named by an algebraic square name.
pub open spec fn algebraic_value(s: Seq<char>) -> int {
    (s[1] as int - 49) * 8 + (s[0] as int - 97)
}

/// Parses a square name such as "e4" into its index (`rank * 8 + file`).
///
/// A string of two bytes that is one character long is left out: the
/// square name would be read past its end.
pub fn parse_algebraic(square: &str) -> (r: Result<usize, String>)
    requires
        square.spec_bytes().len() <= usize::MAX,
        !(square@.len() == 1 && square.spec_bytes().len() == 2),
    ensures
        r is Ok <==> is_algebraic(square@),
        r matches Ok(v) ==> v == algebraic_value(square@) && v < 64,
        r matches Err(e) ==> e@ == invalid_square_message(square@),
{
    proof {
        reveal_strlit("Invalid square: '");
        reveal_strlit("'");
        lemma_utf8_len(square@);
        if square@.len() == 0 {
            assert(encode_utf8(square@) =~= Seq::<u8>::empty());
        }
        if is_algebraic(square@) {
            lemma_ascii_pair_len(square@);
        }
    }
    if square.len() != 2 {
        let mut e = String::from_str("Invalid square: '");
        e.append(square);
        e.append("'");
        return Err(e);
    }
    assert(square@.len() == 2);
    let file = square.get_char(0);
    let rank = square.get_char(1);
    if !(file >= 'a' && file <= 'h') || !(rank >= '1' && rank <= '8') {
        let mut e = String::from_str("Invalid square: '");
        e.append(square);
        e.append("'");
        return Err(e);
    }
    let file_index = (file as u32 - 97) as usize;
    let rank_index = (rank as u32 - 49) as usize;
    Ok(rank_index * 8 + file_index)
}

/// Whether a square index can be named without overflowing the rank digit.
pub open spec fn nameable(square: int) -> bool {
    (square / 8) % 256 <= 206
}

/// The algebraic name of a square, e.g. "e4" for square 28.
pub fn square_to_algebraic(square: usize) -> (r: String)
    requires
        nameable(square as int),
    ensures
        r@ == seq![file_char(square as int), rank_char(square as int)],
{
    let file_index = square % 8;
    let rank_index = square / 8;
    let file = (97u8 + file_index as u8) as char;
    let rank = (49u8 + (rank_index % 256) as u8) as char;
    let mut s = String::new();
    push_char(&mut s, file);
    push_char(&mut s, rank);
    s
}

/// Naming a square and reading the name back gives the square.
pub proof fn lemma_square_name_round_trip(square: int)
    requires
        0 <= square < 64,
    ensures
        is_algebraic(seq![file_char(square), rank_char(square)]),
        algebraic_value(seq![file_char(square), rank_char(square)]) == square,
{
    let name = seq![file_char(square), rank_char(square)];
    assert(name[0] == file_char(square));
    assert(name[1] == rank_char(square));
    assert(97 + square % 8 < 0x80);
    assert((square / 8) % 256 == square / 8);
}

} // verus!
