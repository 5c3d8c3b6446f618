use vstd::prelude::*;
use vstd::wrapping::u64_specs;
use vstd::arithmetic::div_mod::lemma_add_mod_noop;
use crate::pieces::{Color, PieceType};

verus! {

/// The increment of the splitmix64 generator.
pub const GAMMA: u64 = 0x9E37_79B9_7F4A_7C15u64;

/// The seed from which the hashing keys are generated.
pub const SEED: u64 = 0x9E37_79B9_7F4A_7C15u64;

/// The first multiplier of the splitmix64 output mixer.
pub const MIX1: u64 = 0xBF58_476D_1CE4_E5B9u64;

/// The second multiplier of the splitmix64 output mixer.
pub const MIX2: u64 = 0x94D0_49BB_1331_11EBu64;

/// The number of piece-square keys: 12 pieces on 64 squares.
pub const PIECE_KEYS: usize = 768;

/// The output mixer of splitmix64 (MurmurHash3's finalizer).
pub open spec fn mix(state: u64) -> u64 {
    let z1 = u64_specs::wrapping_mul(state ^ (state >> 30u64), MIX1);
    let z2 = u64_specs::wrapping_mul(z1 ^ (z1 >> 27u64), MIX2);
    z2 ^ (z2 >> 31u64)
}

/// The generator state after `n` steps from `seed`.
pub open spec fn splitmix_state(seed: u64, n: nat) -> u64
    decreases n,
{
    if n == 0 {
        seed
    } else {
        u64_specs::wrapping_add(splitmix_state(seed, (n - 1) as nat), GAMMA)
    }
}

/// The `n`-th output (counting from 1) of the splitmix64 generator seeded
/// with `seed`.
pub open spec fn splitmix_output(seed: u64, n: nat) -> u64 {
    mix(splitmix_state(seed, n))
}

/// Advances the generator state and returns the next output.
pub fn splitmix64_next(state: &mut u64) -> (r: u64)
    ensures
        *final(state) == u64_specs::wrapping_add(*old(state), GAMMA),
        r == mix(*final(state)),
{
    *state = state.wrapping_add(GAMMA);
    let mut z = *state;
    z = (z ^ (z >> 30)).wrapping_mul(MIX1);
    z = (z ^ (z >> 27)).wrapping_mul(MIX2);
    z ^ (z >> 31)
}

/// The state after `n` steps is `seed + n * GAMMA` modulo 2^64.
pub proof fn lemma_state_closed_form(seed: u64, n: nat)
    ensures
        splitmix_state(seed, n) as int == (seed + n * GAMMA) % 0x1_0000_0000_0000_0000int,
    decreases n,
{
    let m = 0x1_0000_0000_0000_0000int;
    if n == 0 {
        assert(seed as int % m == seed as int);
    } else {
        lemma_state_closed_form(seed, (n - 1) as nat);
        let prev = splitmix_state(seed, (n - 1) as nat);
        assert(prev as int == (seed + (n - 1) * GAMMA) % m);
        lemma_add_mod_noop(seed + (n - 1) * GAMMA, GAMMA as int, m);
        assert((GAMMA as int) % m == GAMMA as int);
        assert((prev as int) % m == prev as int);
        assert(u64_specs::wrapping_add(prev, GAMMA) as int == (prev + GAMMA) % m);
        assert(seed + (n - 1) * GAMMA + GAMMA == seed + n * GAMMA) by (nonlinear_arith);
    }
}

/// Computes the `n`-th output of the generator directly, without stepping.
pub fn splitmix_output_at(seed: u64, n: u64) -> (r: u64)
    ensures
        r == splitmix_output(seed, n as nat),
{
    let step = GAMMA.wrapping_mul(n);
    let mut state = seed.wrapping_add(step);
    proof {
        let m = 0x1_0000_0000_0000_0000int;
        lemma_state_closed_form(seed, n as nat);
        assert(step as int == (GAMMA * n) % m);
        lemma_add_mod_noop(seed as int, GAMMA * n, m);
        assert((seed as int) % m == seed as int);
        assert(state as int == (seed + step) % m);
        assert(GAMMA * n == n * GAMMA) by (nonlinear_arith);
        assert(state == splitmix_state(seed, n as nat));
    }
    let mut z = state;
    z = (z ^ (z >> 30)).wrapping_mul(MIX1);
    z = (z ^ (z >> 27)).wrapping_mul(MIX2);
    z ^ (z >> 31)
}

/// The index of a piece in the key tables: `color * 6 + piece_type`.
pub open spec fn piece_number(piece_type: PieceType, color: Color) -> int {
    color.spec_index() * 6 + piece_type.spec_index()
}

/// The table index of a piece on a square: `(piece << 6) | square`.
pub open spec fn piece_square_index(piece_type: PieceType, color: Color, square: usize) -> int {
    (((piece_number(piece_type, color) as usize) << 6usize) | square) as int
}

proof fn lemma_piece_square_index(p: usize, square: usize)
    by (bit_vector)
    requires
        p < 12,
        square < 64,
    ensures
        (p << 6usize) | square == p * 64 + square,
        p * 64 + square < 768,
{
}

/// The key of a piece on a square: the output numbered one past its table
/// index.
pub open spec fn spec_piece_square(piece_type: PieceType, color: Color, square: int) -> u64 {
    splitmix_output(SEED, (piece_number(piece_type, color) * 64 + square + 1) as nat)
}

/// The key of an en passant square.
pub open spec fn spec_en_passant(square: int) -> u64 {
    splitmix_output(SEED, (PIECE_KEYS + square + 1) as nat)
}

/// The key of a castling right: index `color` for the kingside and
/// `color + 2` for the queenside.
pub open spec fn spec_castling(index: int) -> u64 {
    splitmix_output(SEED, (PIECE_KEYS + 64 + index + 1) as nat)
}

/// The key of the side to move.
pub open spec fn spec_color() -> u64 {
    splitmix_output(SEED, (PIECE_KEYS + 64 + 4 + 1) as nat)
}

/// The key of a castling right for a side and a color.
pub open spec fn spec_castling_key(kingside: bool, color: Color) -> u64 {
    if kingside {
        spec_castling(color.spec_index())
    } else {
        spec_castling(color.spec_index() + 2)
    }
}

/// The key of a piece of the given type and color on the given square.
pub fn piece_square(piece_type: PieceType, color: Color, square: usize) -> (r: u64)
    requires
        piece_square_index(piece_type, color, square) < 768,
    ensures
        r == splitmix_output(SEED, (piece_square_index(piece_type, color, square) + 1) as nat),
        square < 64 ==> r == spec_piece_square(piece_type, color, square as int),
{
    let piece = color.index() * 6 + piece_type.index();
    proof {
        if square < 64 {
            lemma_piece_square_index(piece, square);
        }
    }
    let index = (piece << 6) | square;
    splitmix_output_at(SEED, index as u64 + 1)
}

/// The key of the side to move.
pub fn color() -> (r: u64)
    ensures
        r == spec_color(),
{
    splitmix_output_at(SEED, 837)
}

/// The key of the kingside castling right of a color.
pub fn kingside_castling(color: Color) -> (r: u64)
    ensures
        r == spec_castling(color.spec_index()),
        r == spec_castling_key(true, color),
{
    splitmix_output_at(SEED, 833 + color.index() as u64)
}

/// The key of the queenside castling right of a color.
pub fn queenside_castling(color: Color) -> (r: u64)
    ensures
        r == spec_castling(color.spec_index() + 2),
        r == spec_castling_key(false, color),
{
    splitmix_output_at(SEED, 835 + color.index() as u64)
}

/// The key of an en passant square.
pub fn en_passant(square: usize) -> (r: u64)
    requires
        square < 64,
    ensures
        r == spec_en_passant(square as int),
{
    splitmix_output_at(SEED, 769 + square as u64)
}

/// The key tables, filled in generator order: the piece-square keys, the en
/// passant keys, the castling keys, then the side-to-move key.
pub struct ZobristTables {
    pub pieces: Vec<u64>,
    pub en_passant: Vec<u64>,
    pub castling: Vec<u64>,
    pub color: u64,
}

/// Generates the key tables from a seed, in the order of the tables' fields.
pub fn generate_zobrist_tables(seed: u64) -> (r: ZobristTables)
    ensures
        r.pieces@.len() == 768,
        r.en_passant@.len() == 64,
        r.castling@.len() == 4,
        forall|i: int| 0 <= i < 768 ==> #[trigger] r.pieces@[i] == splitmix_output(seed, (i + 1) as nat),
        forall|i: int| 0 <= i < 64 ==> #[trigger] r.en_passant@[i] == splitmix_output(seed, (768 + i + 1) as nat),
        forall|i: int| 0 <= i < 4 ==> #[trigger] r.castling@[i] == splitmix_output(seed, (832 + i + 1) as nat),
        r.color == splitmix_output(seed, 837),
{
    let mut state = seed;
    let mut pieces: Vec<u64> = Vec::new();
    let mut en_passant: Vec<u64> = Vec::new();
    let mut castling: Vec<u64> = Vec::new();
    let mut i: usize = 0;
    while i < 768
        invariant
            i <= 768,
            pieces@.len() == i,
            state == splitmix_state(seed, i as nat),
            forall|j: int| 0 <= j < i ==> #[trigger] pieces@[j] == splitmix_output(seed, (j + 1) as nat),
        decreases 768 - i,
    {
        let v = splitmix64_next(&mut state);
        pieces.push(v);
        i += 1;
    }
    i = 0;
    while i < 64
        invariant
            i <= 64,
            en_passant@.len() == i,
            state == splitmix_state(seed, (768 + i) as nat),
            forall|j: int| 0 <= j < i ==> #[trigger] en_passant@[j] == splitmix_output(seed, (768 + j + 1) as nat),
        decreases 64 - i,
    {
        let v = splitmix64_next(&mut state);
        en_passant.push(v);
        i += 1;
    }
    i = 0;
    while i < 4
        invariant
            i <= 4,
            castling@.len() == i,
            state == splitmix_state(seed, (832 + i) as nat),
            forall|j: int| 0 <= j < i ==> #[trigger] castling@[j] == splitmix_output(seed, (832 + j + 1) as nat),
        decreases 4 - i,
    {
        let v = splitmix64_next(&mut state);
        castling.push(v);
        i += 1;
    }
    let color = splitmix64_next(&mut state);
    ZobristTables { pieces, en_passant, castling, color }
}

/// A set of hashing keys whose side-to-move key comes first in generator
/// order, followed by the piece-square, en passant and castling keys.
pub struct Zobrist {
    pieces: Vec<u64>,
    en_passant: Vec<u64>,
    castling: Vec<u64>,
    color: u64,
}

impl Zobrist {
    #[verifier::type_invariant]
    spec fn tables_sized(self) -> bool {
        &&& self.pieces@.len() == 768
        &&& self.en_passant@.len() == 64
        &&& self.castling@.len() == 4
    }

    /// The piece-square key at a table index.
    pub closed spec fn piece_key(self, index: int) -> u64 {
        self.pieces@[index]
    }

    /// The en passant key of a square.
    pub closed spec fn en_passant_key(self, square: int) -> u64 {
        self.en_passant@[square]
    }

    /// The castling key at an index.
    pub closed spec fn castling_key(self, index: int) -> u64 {
        self.castling@[index]
    }

    /// The side-to-move key.
    pub closed spec fn color_key(self) -> u64 {
        self.color
    }

    /// Whether these are the keys generated from `seed`.
    pub open spec fn generated_from(self, seed: u64) -> bool {
        &&& self.color_key() == splitmix_output(seed, 1)
        &&& forall|i: int| 0 <= i < 768 ==> #[trigger] self.piece_key(i) == splitmix_output(seed, (i + 2) as nat)
        &&& forall|i: int| 0 <= i < 64 ==> #[trigger] self.en_passant_key(i) == splitmix_output(seed, (770 + i) as nat)
        &&& forall|i: int| 0 <= i < 4 ==> #[trigger] self.castling_key(i) == splitmix_output(seed, (834 + i) as nat)
    }

    /// Generates the keys from a seed: the side-to-move key first, then the
    /// piece-square, en passant and castling keys.
    pub fn generate(seed: u64) -> (r: Self)
        ensures
            r.generated_from(seed),
    {
        let mut state = seed;
        let mut pieces: Vec<u64> = Vec::new();
        let mut en_passant: Vec<u64> = Vec::new();
        let mut castling: Vec<u64> = Vec::new();
        let color = splitmix64_next(&mut state);
        assert(splitmix_state(seed, 1) == u64_specs::wrapping_add(splitmix_state(seed, 0), GAMMA));
        let mut i: usize = 0;
        while i < 768
            invariant
                i <= 768,
                pieces@.len() == i,
                state == splitmix_state(seed, (i + 1) as nat),
                color == splitmix_output(seed, 1),
                forall|j: int| 0 <= j < i ==> #[trigger] pieces@[j] == splitmix_output(seed, (j + 2) as nat),
            decreases 768 - i,
        {
            let v = splitmix64_next(&mut state);
            pieces.push(v);
            i += 1;
        }
        i = 0;
        while i < 64
            invariant
                i <= 64,
                en_passant@.len() == i,
                state == splitmix_state(seed, (769 + i) as nat),
                color == splitmix_output(seed, 1),
                forall|j: int| 0 <= j < 768 ==> #[trigger] pieces@[j] == splitmix_output(seed, (j + 2) as nat),
                pieces@.len() == 768,
                forall|j: int| 0 <= j < i ==> #[trigger] en_passant@[j] == splitmix_output(seed, (770 + j) as nat),
            decreases 64 - i,
        {
            let v = splitmix64_next(&mut state);
            en_passant.push(v);
            i += 1;
        }
        i = 0;
        while i < 4
            invariant
                i <= 4,
                castling@.len() == i,
                state == splitmix_state(seed, (833 + i) as nat),
                color == splitmix_output(seed, 1),
                forall|j: int| 0 <= j < 768 ==> #[trigger] pieces@[j] == splitmix_output(seed, (j + 2) as nat),
                pieces@.len() == 768,
                forall|j: int| 0 <= j < 64 ==> #[trigger] en_passant@[j] == splitmix_output(seed, (770 + j) as nat),
                en_passant@.len() == 64,
                forall|j: int| 0 <= j < i ==> #[trigger] castling@[j] == splitmix_output(seed, (834 + j) as nat),
            decreases 4 - i,
        {
            let v = splitmix64_next(&mut state);
            castling.push(v);
            i += 1;
        }
        Zobrist { pieces, en_passant, castling, color }
    }

    /// The keys generated from the standard seed.
    pub fn standard() -> (r: Self)
        ensures
            r.generated_from(SEED),
    {
        Self::generate(SEED)
    }

    /// The key of a piece of the given type and color on the given square.
    pub fn piece_square(&self, piece_type: PieceType, color: Color, square: usize) -> (r: u64)
        requires
            piece_square_index(piece_type, color, square) < 768,
        ensures
            r == self.piece_key(piece_square_index(piece_type, color, square)),
            square < 64 ==> r == self.piece_key(piece_number(piece_type, color) * 64 + square),
    {
        proof {
            use_type_invariant(self);
        }
        let piece = color.index() * 6 + piece_type.index();
        proof {
            if square < 64 {
                lemma_piece_square_index(piece, square);
            }
        }
        self.pieces[(piece << 6) | square]
    }

    pub fn color(&self) -> (r: u64)
        ensures
            r == self.color_key(),
    {
        self.color
    }

    pub fn kingside_castling(&self, color: Color) -> (r: u64)
        ensures
            r == self.castling_key(color.spec_index()),
    {
        proof {
            use_type_invariant(self);
        }
        self.castling[color.index()]
    }

    pub fn queenside_castling(&self, color: Color) -> (r: u64)
        ensures
            r == self.castling_key(color.spec_index() + 2),
    {
        proof {
            use_type_invariant(self);
        }
        self.castling[color.index() + 2]
    }

    pub fn en_passant(&self, square: usize) -> (r: u64)
        requires
            square < 64,
        ensures
            r == self.en_passant_key(square as int),
    {
        proof {
            use_type_invariant(self);
        }
        self.en_passant[square]
    }
}

} // verus!
