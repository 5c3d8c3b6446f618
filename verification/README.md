# chess_again

A chess move generator and game recorder, written in Rust and verified with
Verus.

## Layout

- `src/bitboard.rs`: 64-bit square sets and their iterators.
- `src/attacks.rs`: rays, knight, king and pawn patterns, sliding attacks.
- `src/pieces.rs`: colors, piece types, moves, castling rights.
- `src/zobrist.rs`: the splitmix64 generator and the hashing keys.
- `src/board.rs`: the board, its metadata history, making and taking back
  moves, threefold repetition.
- `src/rules.rs`: the rules of attack, stated over placements.
- `src/movegen.rs`: legal move generation, check and insufficient material.
- `src/perft.rs`: counting the leaves of the tree of legal moves.
- `src/start.rs`: the standard starting position.
- `src/necessary.rs`: why every legal move passes the generator's tests.
- `src/fen.rs`: reading and writing FEN, the board picture.
- `src/fen_laws.rs`: why the FEN string of a position reads back as that
  position.
- `src/uci.rs`: reading moves in coordinate notation.
- `src/game.rs`: algebraic notation both ways, games and their PGN export.
- `src/notation.rs`: why the notation of a legal move reads back as that move.
- `app/`: the command-line programs: a random game, and an interactive perft
  tool (`perft` argument).

## What is proved

- The move generator produces exactly the legal moves of any position with
  one king of each color, the kings apart, and at most one knight and one
  pawn giving check, each once.
- Perft counts the leaves of the tree of legal moves, at every depth
  (modulo 2^64), restores the position, and leaves the side-to-move key
  toggled once for each root move taken back.
- Legal moves come group by group: king moves, castling, pawn moves, en
  passant captures, then knight, bishop, rook and queen moves.
- A double pawn push sets the en passant square behind the pawn; any other
  move clears it. The side to move follows the parity of the halfmove count
  on every valid board, and making or taking back a move keeps it so.
- A new game starts from the standard position with moves on offer, and a
  game without a result always offers a move.
- The piece bitboards split the board, and the king index names the one
  square of the king's bitboard.
- Taking back a move restores the position before it.
- A legal move from a reachable position leads to a reachable position.
- The algebraic notation of a legal move is ASCII and, with or without a
  check or mate mark, reads back as that move and no other. Notation with
  other characters is read as far as it can be without cutting a character
  in two.
- While a game runs, the moves it offers are exactly the legal moves of its
  board.
- The FEN string of a position passes every check of a FEN string, and reads
  back as the same pieces, side to move, move number, castling rights, en
  passant square and fifty-move counter, for every valid board with one king
  of each color; writing the board read gives the same string again.
- FEN reading and writing, SAN reading and writing, and PGN export produce
  exactly the texts and errors their specifications describe.
