//! The board-state codec: a `ParsedFEN` holds the full position snapshot, and
//! is read from and written to the six-field textual position descriptor
//! (placement, side to move, castling rights, en-passant target, halfmove
//! clock, fullmove counter).
//!
//! Parsing is deliberately permissive, as the descriptor grammar asks: in the
//! placement field the digits '1' to '8' skip that many empty squares while
//! the malformed digits '0' and '9' are ignored as zero-width; a side-to-move
//! field other than exactly "w" means dark to move; unrecognized castling
//! characters are ignored; a malformed en-passant field reads as "no square";
//! malformed clock fields default to 0 and 1. Serialization is canonical:
//! empty runs are emitted with their exact length, so re-serializing a parsed
//! descriptor is a fixed point.

use vstd::prelude::*;
use crate::piece::{Piece, PieceKind, char_of_piece, empty_piece, piece_of_char};
use crate::square::{push_square, spec_parse_square, spec_to_square, sq_col, sq_row};
use crate::text::{
    all_digits, chars_of, digit_val, exec_digit, is_digit_char, parse_decimal, push_decimal,
    spec_dec, spec_parse_dec, spec_split, split_chars, string_from_chars,
};

verus! {

/// The canonical starting-position descriptor.
pub const START_FEN: &'static str = "rnbqkbnr/pppppppp/8/8/8/8/PPPPPPPP/RNBQKBNR w KQkq - 0 1";

/// The four independent castling permissions, one per side and rook wing.
#[derive(Clone, Copy, PartialEq, Eq, Structural, Debug)]
pub struct CastleRights {
    pub light_kingside: bool,
    pub light_queenside: bool,
    pub dark_kingside: bool,
    pub dark_queenside: bool,
}

impl CastleRights {
    pub open spec fn any(self) -> bool {
        self.light_kingside || self.light_queenside || self.dark_kingside || self.dark_queenside
    }

    pub open spec fn none_held() -> CastleRights {
        CastleRights {
            light_kingside: false,
            light_queenside: false,
            dark_kingside: false,
            dark_queenside: false,
        }
    }
}

/// The rights granted by a castling field: a leading '-' grants none;
/// otherwise each of 'K', 'Q', 'k', 'q' present grants the corresponding
/// right and every other character is ignored.
pub open spec fn spec_parse_castle(s: Seq<char>) -> CastleRights {
    if s.len() >= 1 && s[0] == '-' {
        CastleRights::none_held()
    } else {
        CastleRights {
            light_kingside: s.contains('K'),
            light_queenside: s.contains('Q'),
            dark_kingside: s.contains('k'),
            dark_queenside: s.contains('q'),
        }
    }
}

/// The castling field that encodes a set of rights: "-" when none is held,
/// otherwise the held rights in the fixed order "KQkq".
pub open spec fn spec_castle_chars(c: CastleRights) -> Seq<char> {
    if !c.any() {
        seq!['-']
    } else {
        (if c.light_kingside {
            seq!['K']
        } else {
            Seq::<char>::empty()
        }) + (if c.light_queenside {
            seq!['Q']
        } else {
            Seq::<char>::empty()
        }) + (if c.dark_kingside {
            seq!['k']
        } else {
            Seq::<char>::empty()
        }) + (if c.dark_queenside {
            seq!['q']
        } else {
            Seq::<char>::empty()
        })
    }
}

/// The ghost value of a board state: the 64 squares (index = rank * 8 + file),
/// the side to move (`false` = light), the castling rights, the en-passant
/// target square (64 = none), and the two move clocks.
#[verifier::ext_equal]
pub struct FenV {
    pub board: Seq<Piece>,
    pub color: bool,
    pub castle: CastleRights,
    pub en_passant: u8,
    pub halfmove_clock: u8,
    pub fullmove_clock: u16,
}

impl FenV {
    /// Structural validity: exactly 64 squares, and the en-passant target is a
    /// square index or the sentinel.
    pub open spec fn wf(self) -> bool {
        &&& self.board.len() == 64
        &&& self.en_passant <= 64
    }
}

/// The full position snapshot, as parsed from a position descriptor.
pub struct ParsedFEN {
    pub board: Vec<Piece>,
    /// Side to move: `false` = light, `true` = dark.
    pub color: bool,
    pub castle: CastleRights,
    /// En-passant target square index, or 64 for "none".
    pub en_passant: u8,
    pub halfmove_clock: u8,
    pub fullmove_clock: u16,
}

impl View for ParsedFEN {
    type V = FenV;

    open spec fn view(&self) -> FenV {
        FenV {
            board: self.board@,
            color: self.color,
            castle: self.castle,
            en_passant: self.en_passant,
            halfmove_clock: self.halfmove_clock,
            fullmove_clock: self.fullmove_clock,
        }
    }
}

/// The squares that one placement rank's characters denote, left to right:
/// digits '1' to '8' denote that many empty squares, '0' and '9' denote
/// nothing, and any other character denotes the piece it decodes to.
pub open spec fn rank_pieces(s: Seq<char>) -> Seq<Piece>
    decreases s.len(),
{
    if s.len() == 0 {
        Seq::<Piece>::empty()
    } else {
        let c = s[0];
        let rest = rank_pieces(s.drop_first());
        if is_digit_char(c) {
            if 1 <= digit_val(c) && digit_val(c) <= 8 {
                Seq::new(digit_val(c) as nat, |k: int| empty_piece()) + rest
            } else {
                rest
            }
        } else {
            seq![piece_of_char(c)] + rest
        }
    }
}

pub proof fn lemma_rank_pieces_concat(a: Seq<char>, b: Seq<char>)
    ensures
        rank_pieces(a + b) =~= rank_pieces(a) + rank_pieces(b),
    decreases a.len(),
{
    if a.len() == 0 {
        assert(a + b =~= b);
    } else {
        assert((a + b).drop_first() =~= a.drop_first() + b);
        lemma_rank_pieces_concat(a.drop_first(), b);
    }
}

/// The board read from a placement field whose first `g` rank groups have been
/// applied: group 0 fills rank 7 down to group 7 filling rank 0, and ranks
/// without a group stay empty.
pub open spec fn board_upto(gs: Seq<Seq<char>>, g: int) -> Seq<Piece> {
    Seq::new(
        64,
        |i: int|
            if 7 - sq_row(i) < g {
                rank_pieces(gs[7 - sq_row(i)])[sq_col(i)]
            } else {
                empty_piece()
            },
    )
}

/// The board a whole placement field denotes.
pub open spec fn spec_board_of_placement(s: Seq<char>) -> Seq<Piece> {
    board_upto(spec_split(s, '/'), spec_split(s, '/').len() as int)
}

/// A placement field the parser accepts: at most eight rank groups, each
/// denoting exactly eight squares.
pub open spec fn wf_placement(s: Seq<char>) -> bool {
    let gs = spec_split(s, '/');
    &&& gs.len() <= 8
    &&& forall|g: int| 0 <= g < gs.len() ==> rank_pieces(#[trigger] gs[g]).len() == 8
}

/// A descriptor the parser accepts: at least six space-separated fields
/// (extra fields are ignored) with a well-formed placement field.
pub open spec fn wf_descriptor(s: Seq<char>) -> bool {
    let fs = spec_split(s, ' ');
    &&& fs.len() >= 6
    &&& wf_placement(fs[0])
}

/// The board state a descriptor denotes.
pub open spec fn spec_parse_fen(s: Seq<char>) -> FenV {
    let fs = spec_split(s, ' ');
    FenV {
        board: spec_board_of_placement(fs[0]),
        color: !(fs[1] == seq!['w']),
        castle: spec_parse_castle(fs[2]),
        en_passant: spec_parse_square(fs[3]),
        halfmove_clock: match spec_parse_dec(fs[4], 255) {
            Some(v) => v as u8,
            None => 0u8,
        },
        fullmove_clock: match spec_parse_dec(fs[5], 65535) {
            Some(v) => v as u16,
            None => 1u16,
        },
    }
}

/// The run-length encoding of the remaining squares of one rank, with
/// `pending` empty squares seen but not yet emitted.
pub open spec fn rle_from(ps: Seq<Piece>, pending: int) -> Seq<char>
    decreases ps.len(),
{
    if ps.len() == 0 {
        if pending > 0 {
            seq![crate::text::digit_char(pending)]
        } else {
            Seq::<char>::empty()
        }
    } else if ps[0].kind == PieceKind::Vacant {
        rle_from(ps.drop_first(), pending + 1)
    } else {
        (if pending > 0 {
            seq![crate::text::digit_char(pending)]
        } else {
            Seq::<char>::empty()
        }) + seq![char_of_piece(ps[0])] + rle_from(ps.drop_first(), 0)
    }
}

/// The eight squares of rank `r`, lowest file first.
pub open spec fn row_seq(b: Seq<Piece>, r: int) -> Seq<Piece> {
    b.subrange(8 * r, 8 * r + 8)
}

/// The canonical run-length encoding of rank `r`.
pub open spec fn rank_chars(b: Seq<Piece>, r: int) -> Seq<char> {
    rle_from(row_seq(b, r), 0)
}

/// The first `g` ranks of the canonical placement field, highest rank first,
/// with '/' after every rank but the last.
pub open spec fn placement_prefix(b: Seq<Piece>, g: int) -> Seq<char>
    decreases g,
{
    if g <= 0 {
        Seq::<char>::empty()
    } else {
        placement_prefix(b, g - 1) + rank_chars(b, 8 - g) + (if g < 8 {
            seq!['/']
        } else {
            Seq::<char>::empty()
        })
    }
}

/// The canonical placement field of a board.
pub open spec fn spec_placement_chars(b: Seq<Piece>) -> Seq<char> {
    placement_prefix(b, 8)
}

/// The canonical descriptor of a board state.
pub open spec fn spec_fen_chars(st: FenV) -> Seq<char> {
    spec_placement_chars(st.board) + seq![' '] + (if st.color {
        seq!['b']
    } else {
        seq!['w']
    }) + seq![' '] + spec_castle_chars(st.castle) + seq![' '] + spec_to_square(st.en_passant)
        + seq![' '] + spec_dec(st.halfmove_clock as int) + seq![' '] + spec_dec(
        st.fullmove_clock as int,
    )
}

/// The piece standing on square `i` at the start of a game.
pub open spec fn initial_piece(i: int) -> Piece {
    let r = sq_row(i);
    let c = sq_col(i);
    if r == 1 {
        Piece { kind: PieceKind::Pawn, color: false, moved: false }
    } else if r == 6 {
        Piece { kind: PieceKind::Pawn, color: true, moved: false }
    } else if r == 0 || r == 7 {
        Piece { kind: back_rank_kind(c), color: r == 7, moved: false }
    } else {
        empty_piece()
    }
}

/// The piece kind standing on file `c` of either back rank at the start.
pub open spec fn back_rank_kind(c: int) -> PieceKind {
    if c == 0 || c == 7 {
        PieceKind::Rook
    } else if c == 1 || c == 6 {
        PieceKind::Knight
    } else if c == 2 || c == 5 {
        PieceKind::Bishop
    } else if c == 3 {
        PieceKind::Queen
    } else {
        PieceKind::King
    }
}

/// The starting position: light to move, all rights held, no en-passant
/// target, clocks 0 and 1.
pub open spec fn initial_fen() -> FenV {
    FenV {
        board: Seq::new(64, |i: int| initial_piece(i)),
        color: false,
        castle: CastleRights {
            light_kingside: true,
            light_queenside: true,
            dark_kingside: true,
            dark_queenside: true,
        },
        en_passant: 64,
        halfmove_clock: 0,
        fullmove_clock: 1,
    }
}

fn exec_initial_piece(i: u8) -> (r: Piece)
    requires
        i < 64,
    ensures
        r == initial_piece(i as int),
{
    let r = i / 8;
    let c = i % 8;
    if r == 1 {
        Piece { kind: PieceKind::Pawn, color: false, moved: false }
    } else if r == 6 {
        Piece { kind: PieceKind::Pawn, color: true, moved: false }
    } else if r == 0 || r == 7 {
        let kind = match c {
            0 | 7 => PieceKind::Rook,
            1 | 6 => PieceKind::Knight,
            2 | 5 => PieceKind::Bishop,
            3 => PieceKind::Queen,
            _ => PieceKind::King,
        };
        Piece { kind, color: r == 7, moved: false }
    } else {
        Piece { kind: PieceKind::Vacant, color: false, moved: false }
    }
}

/// Reads a castling field given as a character vector.
pub fn parse_castle_chars(v: &Vec<char>) -> (r: CastleRights)
    ensures
        r == spec_parse_castle(v@),
{
    if v.len() >= 1 && v[0] == '-' {
        return CastleRights {
            light_kingside: false,
            light_queenside: false,
            dark_kingside: false,
            dark_queenside: false,
        };
    }
    let mut lk = false;
    let mut lq = false;
    let mut dk = false;
    let mut dq = false;
    let mut i: usize = 0;
    proof {
        assert(v@.subrange(0, 0) =~= Seq::<char>::empty());
    }
    while i < v.len()
        invariant
            i <= v@.len(),
            lk == v@.subrange(0, i as int).contains('K'),
            lq == v@.subrange(0, i as int).contains('Q'),
            dk == v@.subrange(0, i as int).contains('k'),
            dq == v@.subrange(0, i as int).contains('q'),
        decreases v@.len() - i,
    {
        let c = v[i];
        proof {
            assert(v@.subrange(0, i + 1) =~= v@.subrange(0, i as int).push(v@[i as int]));
            crate::text::lemma_push_contains(v@.subrange(0, i as int), c);
        }
        match c {
            'K' => {
                lk = true;
            },
            'Q' => {
                lq = true;
            },
            'k' => {
                dk = true;
            },
            'q' => {
                dq = true;
            },
            _ => {},
        }
        i = i + 1;
    }
    proof {
        assert(v@.subrange(0, v@.len() as int) =~= v@);
    }
    CastleRights { light_kingside: lk, light_queenside: lq, dark_kingside: dk, dark_queenside: dq }
}

/// Appends the castling field that encodes a set of rights.
pub fn push_castle(out: &mut Vec<char>, c: &CastleRights)
    ensures
        final(out)@ == old(out)@ + spec_castle_chars(*c),
{
    if !(c.light_kingside || c.light_queenside || c.dark_kingside || c.dark_queenside) {
        out.push('-');
        proof {
            assert(out@ =~= old(out)@ + spec_castle_chars(*c));
        }
        return ;
    }
    if c.light_kingside {
        out.push('K');
    }
    if c.light_queenside {
        out.push('Q');
    }
    if c.dark_kingside {
        out.push('k');
    }
    if c.dark_queenside {
        out.push('q');
    }
    proof {
        assert(out@ =~= old(out)@ + spec_castle_chars(*c));
    }
}

impl ParsedFEN {
    /// Parses a six-field position descriptor into a board state.
    #[verifier::loop_isolation(false)]
    pub fn from(fen_string: &str) -> (r: ParsedFEN)
        requires
            wf_descriptor(fen_string@),
        ensures
            r@ == spec_parse_fen(fen_string@),
            r@.wf(),
    {
        let chars = chars_of(fen_string);
        let parts = split_chars(&chars, ' ');
        let ghost fs = spec_split(fen_string@, ' ');
        let groups = split_chars(&parts[0], '/');
        let ghost gs = spec_split(fs[0], '/');
        proof {
            assert(parts@[0]@ == fs[0]);
            assert(groups@.len() == gs.len());
            assert(forall|k: int| 0 <= k < gs.len() ==> (#[trigger] groups@[k])@ == gs[k]);
        }
        let mut board: Vec<Piece> = Vec::new();
        let mut si: usize = 0;
        while si < 64
            invariant
                si <= 64,
                board@.len() == si,
                forall|j: int| 0 <= j < si ==> board@[j] == empty_piece(),
            decreases 64 - si,
        {
            board.push(Piece { kind: PieceKind::Vacant, color: false, moved: false });
            si = si + 1;
        }
        proof {
            assert(board@ =~= board_upto(gs, 0));
        }
        let mut g: usize = 0;
        while g < groups.len()
            invariant
                g <= groups@.len(),
                groups@.len() == gs.len() <= 8,
                forall|k: int| 0 <= k < gs.len() ==> (#[trigger] groups@[k])@ == gs[k],
                forall|k: int| 0 <= k < gs.len() ==> rank_pieces(#[trigger] gs[k]).len() == 8,
                board@.len() == 64,
                board@ == board_upto(gs, g as int),
            decreases groups@.len() - g,
        {
            let grp = &groups[g];
            let rr: usize = 7 - g;
            let mut col: usize = 0;
            let mut ci: usize = 0;
            proof {
                assert(grp@.subrange(0, 0) =~= Seq::<char>::empty());
            }
            while ci < grp.len()
                invariant
                    ci <= grp@.len(),
                    grp@ == gs[g as int],
                    0 <= g < gs.len() <= 8,
                    rr == 7 - g,
                    rank_pieces(gs[g as int]).len() == 8,
                    col == rank_pieces(grp@.subrange(0, ci as int)).len(),
                    col <= 8,
                    board@.len() == 64,
                    forall|i: int|
                        0 <= i < 64 && !(sq_row(i) == rr && sq_col(i) < col)
                            ==> board@[i] == board_upto(gs, g as int)[i],
                    forall|j: int|
                        0 <= j < col ==> board@[8 * (rr as int) + j] == rank_pieces(
                            grp@.subrange(0, ci as int),
                        )[j],
                decreases grp@.len() - ci,
            {
                let c = grp[ci];
                let ghost pre = grp@.subrange(0, ci as int);
                let ghost suf = grp@.subrange(ci as int, grp@.len() as int);
                proof {
                    assert(grp@.subrange(0, ci + 1) =~= pre.push(c));
                    assert(pre.push(c) =~= pre + seq![c]);
                    assert(pre + suf =~= grp@);
                    lemma_rank_pieces_concat(pre, seq![c]);
                    lemma_rank_pieces_concat(pre, suf);
                    assert(seq![c].drop_first() =~= Seq::<char>::empty());
                    assert(rank_pieces(Seq::<char>::empty()) == Seq::<Piece>::empty());
                    assert(seq![c][0] == c);
                }
                let cu = c as u32;
                if 49 <= cu && cu <= 56 {
                    let d: usize = (cu - 48) as usize;
                    proof {
                        assert(rank_pieces(seq![c]) =~= Seq::new(
                            digit_val(c) as nat,
                            |k: int| empty_piece(),
                        ));
                        let suftail = grp@.subrange(ci + 1, grp@.len() as int);
                        assert(rank_pieces(suf).len() >= d) by {
                            assert(suf.len() > 0);
                            assert(suf[0] == c);
                            assert(suf.drop_first() =~= suftail);
                            lemma_rank_pieces_concat(seq![c], suftail);
                            assert(seq![c] + suftail =~= suf);
                        }
                        assert(col + d <= 8);
                        assert forall|j: int| col <= j < col + d implies #[trigger] board@[8 * (
                        rr as int) + j] == empty_piece() by {
                            crate::square::lemma_sq_of_rowcol(rr as int, j);
                        }
                    }
                    col = col + d;
                } else if cu == 48 || cu == 57 {
                    proof {
                        assert(rank_pieces(seq![c]) =~= Seq::<Piece>::empty());
                        assert(rank_pieces(pre + seq![c]) =~= rank_pieces(pre));
                    }
                } else {
                    proof {
                        assert(!is_digit_char(c));
                        assert(rank_pieces(seq![c]) =~= seq![piece_of_char(c)]);
                        let suftail = grp@.subrange(ci + 1, grp@.len() as int);
                        assert(rank_pieces(suf).len() >= 1) by {
                            assert(suf.len() > 0);
                            assert(suf[0] == c);
                            assert(suf.drop_first() =~= suftail);
                            lemma_rank_pieces_concat(seq![c], suftail);
                            assert(seq![c] + suftail =~= suf);
                        }
                        assert(col < 8);
                        crate::square::lemma_sq_of_rowcol(rr as int, col as int);
                    }
                    let p = Piece::from(&c);
                    board[8 * rr + col] = p;
                    proof {
                        assert forall|j: int| 0 <= j < col + 1 implies board@[8 * (rr as int) + j]
                            == rank_pieces(pre + seq![c])[j] by {
                            crate::square::lemma_sq_of_rowcol(rr as int, j);
                        }
                        assert forall|i: int|
                            0 <= i < 64 && !(sq_row(i) == rr && sq_col(i) < col + 1) implies
                            board@[i] == board_upto(gs, g as int)[i] by {
                            crate::square::lemma_rowcol(i);
                            crate::square::lemma_sq_of_rowcol(rr as int, col as int);
                        }
                    }
                    col = col + 1;
                }
                ci = ci + 1;
            }
            proof {
                assert(grp@.subrange(0, grp@.len() as int) =~= grp@);
                assert(col == 8);
                assert forall|i: int| 0 <= i < 64 implies board@[i] == board_upto(
                    gs,
                    g + 1,
                )[i] by {
                    crate::square::lemma_rowcol(i);
                    if sq_row(i) == rr {
                        assert(7 - sq_row(i) == g);
                        assert(i == 8 * (rr as int) + sq_col(i));
                        assert(board@[i] == rank_pieces(gs[g as int])[sq_col(i)]);
                    }
                }
                assert(board@ =~= board_upto(gs, g + 1));
            }
            g = g + 1;
        }
        proof {
            assert(parts@[1]@ == fs[1]);
            assert(parts@[2]@ == fs[2]);
            assert(parts@[3]@ == fs[3]);
            assert(parts@[4]@ == fs[4]);
            assert(parts@[5]@ == fs[5]);
        }
        let color_part = &parts[1];
        let to_move_dark: bool = !(color_part.len() == 1 && color_part[0] == 'w');
        proof {
            if color_part@.len() == 1 && color_part@[0] == 'w' {
                assert(fs[1] =~= seq!['w']);
            }
            if fs[1] == seq!['w'] {
                assert(color_part@.len() == 1 && color_part@[0] == 'w');
            }
        }
        proof {
            if fs[4].len() >= 1 && all_digits(fs[4]) {
                crate::text::lemma_dec_val_nonneg(fs[4]);
            }
            if fs[5].len() >= 1 && all_digits(fs[5]) {
                crate::text::lemma_dec_val_nonneg(fs[5]);
            }
        }
        let castle = parse_castle_chars(&parts[2]);
        let en_passant = crate::square::parse_square_chars(&parts[3]);
        let halfmove_clock: u8 = match parse_decimal(&parts[4], 255) {
            Some(v) => v as u8,
            None => 0,
        };
        let fullmove_clock: u16 = match parse_decimal(&parts[5], 65535) {
            Some(v) => v,
            None => 1,
        };
        let r = ParsedFEN { board, color: to_move_dark, castle, en_passant, halfmove_clock, fullmove_clock };
        proof {
            let sp = spec_parse_fen(fen_string@);
            assert(r@.board =~= sp.board);
            assert(r@.color == sp.color);
            assert(r@.castle == sp.castle);
            assert(r@.en_passant == sp.en_passant);
            assert(r@.halfmove_clock == sp.halfmove_clock);
            assert(r@.fullmove_clock == sp.fullmove_clock);
            assert(r@ =~~= sp);
        }
        r
    }

    /// The starting position.
    pub fn new() -> (r: ParsedFEN)
        ensures
            r@ == initial_fen(),
            r@.wf(),
    {
        let mut board: Vec<Piece> = Vec::new();
        let mut i: usize = 0;
        while i < 64
            invariant
                i <= 64,
                board@.len() == i,
                forall|j: int| 0 <= j < i ==> board@[j] == initial_piece(j),
            decreases 64 - i,
        {
            board.push(exec_initial_piece(i as u8));
            i = i + 1;
        }
        let r = ParsedFEN {
            board,
            color: false,
            castle: CastleRights {
                light_kingside: true,
                light_queenside: true,
                dark_kingside: true,
                dark_queenside: true,
            },
            en_passant: 64,
            halfmove_clock: 0,
            fullmove_clock: 1,
        };
        proof {
            assert(r@.board =~= initial_fen().board);
            assert(r@ =~~= initial_fen());
        }
        r
    }

    /// Serializes this state into its canonical descriptor.
    #[verifier::loop_isolation(false)]
    pub fn to_string(&self) -> (r: String)
        requires
            self@.wf(),
        ensures
            r@ == spec_fen_chars(self@),
    {
        let mut out: Vec<char> = Vec::new();
        let ghost b = self@.board;
        let mut g: usize = 0;
        proof {
            assert(out@ =~= placement_prefix(b, 0));
        }
        while g < 8
            invariant
                g <= 8,
                self@.wf(),
                b == self@.board,
                out@ == placement_prefix(b, g as int),
            decreases 8 - g,
        {
            let rr: usize = 7 - g;
            let ghost row = row_seq(b, rr as int);
            let ghost base = out@;
            let mut cnt: u8 = 0;
            let mut cc: usize = 0;
            proof {
                assert(row.subrange(0, 8) =~= row);
            }
            while cc < 8
                invariant
                    cc <= 8,
                    cnt <= cc,
                    rr == 7 - g,
                    g < 8,
                    self@.wf(),
                    b == self@.board,
                    row == row_seq(b, rr as int),
                    out@ + rle_from(row.subrange(cc as int, 8), cnt as int) == base + rle_from(
                        row,
                        0,
                    ),
                decreases 8 - cc,
            {
                let ghost tail = row.subrange(cc as int, 8);
                proof {
                    assert(tail.len() == 8 - cc);
                    assert(tail[0] == b[8 * (rr as int) + cc]);
                    assert(tail.drop_first() =~= row.subrange(cc + 1, 8));
                }
                let p = self.board[8 * rr + cc];
                if matches!(p.kind, PieceKind::Vacant) {
                    cnt = cnt + 1;
                    proof {
                        assert(out@ + rle_from(row.subrange(cc + 1, 8), cnt as int) =~= base
                            + rle_from(row, 0));
                    }
                } else {
                    if cnt > 0 {
                        out.push(exec_digit(cnt as u16));
                    }
                    out.push(p.symbol());
                    cnt = 0;
                    proof {
                        assert(out@ + rle_from(row.subrange(cc + 1, 8), 0) =~= base + rle_from(
                            row,
                            0,
                        ));
                    }
                }
                cc = cc + 1;
            }
            if cnt > 0 {
                out.push(exec_digit(cnt as u16));
            }
            proof {
                assert(row.subrange(8, 8) =~= Seq::<Piece>::empty());
                assert(out@ =~= base + rank_chars(b, rr as int));
            }
            if g < 7 {
                out.push('/');
            }
            proof {
                assert(out@ =~= placement_prefix(b, g + 1));
            }
            g = g + 1;
        }
        out.push(' ');
        out.push(if self.color { 'b' } else { 'w' });
        out.push(' ');
        push_castle(&mut out, &self.castle);
        out.push(' ');
        push_square(&mut out, self.en_passant);
        out.push(' ');
        push_decimal(&mut out, self.halfmove_clock as u16);
        out.push(' ');
        push_decimal(&mut out, self.fullmove_clock);
        proof {
            assert(out@ =~= spec_fen_chars(self@));
        }
        string_from_chars(&out)
    }

    /// Reads a castling field.
    pub fn parse_castle_text(castle_string: &str) -> (r: CastleRights)
        ensures
            r == spec_parse_castle(castle_string@),
    {
        let v = chars_of(castle_string);
        parse_castle_chars(&v)
    }

    /// Writes a set of castling rights as a castling field.
    pub fn parse_castle_value(castle_value: &CastleRights) -> (r: String)
        ensures
            r@ == spec_castle_chars(*castle_value),
    {
        let mut v: Vec<char> = Vec::new();
        push_castle(&mut v, castle_value);
        proof {
            assert(v@ =~= spec_castle_chars(*castle_value));
        }
        string_from_chars(&v)
    }
}

impl Clone for ParsedFEN {
    /// A deep copy with the same ghost value.
    fn clone(&self) -> (r: Self)
        ensures
            r@ == self@,
    {
        let mut b: Vec<Piece> = Vec::new();
        let mut i: usize = 0;
        while i < self.board.len()
            invariant
                i <= self.board@.len(),
                b@ =~= self.board@.subrange(0, i as int),
            decreases self.board@.len() - i,
        {
            b.push(self.board[i]);
            i = i + 1;
            proof {
                assert(b@ =~= self.board@.subrange(0, i as int));
            }
        }
        proof {
            assert(b@ =~= self.board@);
        }
        let r = ParsedFEN {
            board: b,
            color: self.color,
            castle: self.castle,
            en_passant: self.en_passant,
            halfmove_clock: self.halfmove_clock,
            fullmove_clock: self.fullmove_clock,
        };
        proof {
            assert(r@ =~~= self@);
        }
        r
    }
}

/// Whether a descriptor is well-formed enough for `ParsedFEN::from`.
#[verifier::loop_isolation(false)]
pub fn descriptor_well_formed(s: &str) -> (r: bool)
    ensures
        r == wf_descriptor(s@),
{
    let chars = chars_of(s);
    let parts = split_chars(&chars, ' ');
    if parts.len() < 6 {
        return false;
    }
    let groups = split_chars(&parts[0], '/');
    let ghost fs = spec_split(s@, ' ');
    let ghost gs = spec_split(fs[0], '/');
    proof {
        assert(parts@[0]@ == fs[0]);
        assert(groups@.len() == gs.len());
        assert(forall|k: int| 0 <= k < gs.len() ==> (#[trigger] groups@[k])@ == gs[k]);
    }
    if groups.len() > 8 {
        return false;
    }
    let mut g: usize = 0;
    while g < groups.len()
        invariant
            g <= groups@.len(),
            groups@.len() == gs.len() <= 8,
            forall|k: int| 0 <= k < gs.len() ==> (#[trigger] groups@[k])@ == gs[k],
            forall|k: int| 0 <= k < g ==> rank_pieces(#[trigger] gs[k]).len() == 8,
        decreases groups@.len() - g,
    {
        let grp = &groups[g];
        let mut w: usize = 0;
        let mut ci: usize = 0;
        proof {
            assert(grp@.subrange(0, 0) =~= Seq::<char>::empty());
        }
        while ci < grp.len()
            invariant
                ci <= grp@.len(),
                grp@ == gs[g as int],
                0 <= g < gs.len(),
                w == rank_pieces(grp@.subrange(0, ci as int)).len(),
                w <= 8,
            decreases grp@.len() - ci,
        {
            let c = grp[ci];
            let ghost pre = grp@.subrange(0, ci as int);
            proof {
                assert(grp@.subrange(0, ci + 1) =~= pre + seq![c]);
                lemma_rank_pieces_concat(pre, seq![c]);
                assert(seq![c].drop_first() =~= Seq::<char>::empty());
                assert(rank_pieces(Seq::<char>::empty()) == Seq::<Piece>::empty());
                assert(seq![c][0] == c);
            }
            let cu = c as u32;
            let dw: usize = if 49 <= cu && cu <= 56 {
                proof {
                    assert(rank_pieces(seq![c]) =~= Seq::new(
                        digit_val(c) as nat,
                        |k: int| empty_piece(),
                    ));
                }
                (cu - 48) as usize
            } else if cu == 48 || cu == 57 {
                proof {
                    assert(rank_pieces(seq![c]) =~= Seq::<Piece>::empty());
                }
                0
            } else {
                proof {
                    assert(rank_pieces(seq![c]) =~= seq![piece_of_char(c)]);
                }
                1
            };
            if w + dw > 8 {
                proof {
                    let full = grp@;
                    let pre1 = grp@.subrange(0, ci + 1);
                    let suf1 = grp@.subrange(ci + 1, grp@.len() as int);
                    assert(pre1 + suf1 =~= full);
                    lemma_rank_pieces_concat(pre1, suf1);
                    assert(rank_pieces(full).len() >= w + dw);
                    assert(rank_pieces(gs[g as int]).len() != 8);
                    assert(!wf_placement(fs[0])) by {
                        assert(0 <= g < spec_split(fs[0], '/').len());
                        assert(rank_pieces(spec_split(fs[0], '/')[g as int]).len() != 8);
                    }
                }
                return false;
            }
            w = w + dw;
            ci = ci + 1;
        }
        proof {
            assert(grp@.subrange(0, grp@.len() as int) =~= grp@);
        }
        if w != 8 {
            proof {
                assert(!wf_placement(fs[0])) by {
                    assert(0 <= g < spec_split(fs[0], '/').len());
                    assert(rank_pieces(spec_split(fs[0], '/')[g as int]).len() != 8);
                }
            }
            return false;
        }
        g = g + 1;
    }
    proof {
        assert(wf_placement(fs[0])) by {
            assert(forall|k: int|
                0 <= k < spec_split(fs[0], '/').len() ==> rank_pieces(
                    #[trigger] spec_split(fs[0], '/')[k],
                ).len() == 8);
        }
    }
    true
}

} // verus!
