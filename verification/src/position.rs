//! The position engine: a `Position` owns a live board state, its cached
//! serialized descriptor, and a one-level undo snapshot. `make_move` validates
//! a requested move against the generated pseudo-legal moves and applies it
//! with the special rules (en-passant capture, castling, promotion, clock and
//! rights bookkeeping); `unmake_move` restores the snapshot or reports that
//! there is none. A failed request leaves the position unchanged.

use vstd::prelude::*;
use crate::fen::{
    CastleRights, FenV, ParsedFEN, initial_fen, spec_fen_chars, spec_parse_fen, wf_descriptor,
};
use crate::moves::{
    dir_ok, gen_castle_moves, gen_knight_moves, gen_pawn_moves,
    king_move_ok, move_ok, off_dc, off_dr, one_step_ok, ray_move_ok, lemma_king_step_dirs, lemma_move_ok_props, lemma_ray_props,
};
use crate::piece::{Piece, PieceKind, empty_piece, kind_of_char};
use crate::square::{
    in_board, lemma_rowcol, lemma_sq_of_rowcol, parse_square, spec_parse_square, sq_col, sq_row,
};
use crate::text::{chars_of, lemma_concat_contains, lemma_push_contains, push_decimal,
    string_from_chars};

verus! {

/// The engine-level owner of one game: the live state, its serialized form,
/// and the snapshot taken by the last applied move.
pub struct Position {
    pub state: ParsedFEN,
    pub fen: String,
    pub old_position: Option<ParsedFEN>,
}

/// Castling rights with both of one side's permissions revoked.
pub open spec fn clear_side_rights(cr: CastleRights, dark: bool) -> CastleRights {
    if dark {
        CastleRights { dark_kingside: false, dark_queenside: false, ..cr }
    } else {
        CastleRights { light_kingside: false, light_queenside: false, ..cr }
    }
}

/// Castling rights with one single permission revoked.
pub open spec fn clear_one_right(cr: CastleRights, dark: bool, kingside: bool) -> CastleRights {
    if dark {
        if kingside {
            CastleRights { dark_kingside: false, ..cr }
        } else {
            CastleRights { dark_queenside: false, ..cr }
        }
    } else {
        if kingside {
            CastleRights { light_kingside: false, ..cr }
        } else {
            CastleRights { light_queenside: false, ..cr }
        }
    }
}

/// The square of the pawn captured en passant when a pawn lands on target `t`.
pub open spec fn ep_capture_sq(t: int) -> int {
    if sq_row(t) == 5 {
        t - 8
    } else {
        t + 8
    }
}

/// The move takes a pawn to the last rank, so it promotes.
pub open spec fn is_promo_move(st: FenV, o: int, t: int) -> bool {
    st.board[o].kind == PieceKind::Pawn && (sq_row(t) == 7 || sq_row(t) == 0)
}

/// The move is a pawn double push.
pub open spec fn is_double_push(st: FenV, o: int, t: int) -> bool {
    st.board[o].kind == PieceKind::Pawn && (sq_row(t) - sq_row(o) == 2 || sq_row(o) - sq_row(t)
        == 2)
}

/// The piece kind a promotion token denotes (the kind of its first symbol).
pub open spec fn promo_kind_of(s: Seq<char>) -> PieceKind {
    if s.len() >= 1 {
        kind_of_char(s[0])
    } else {
        PieceKind::Vacant
    }
}

/// The board after the en-passant capture removal: when a pawn lands on the
/// recorded en-passant target, the captured pawn's square is emptied (when it
/// lies on the board).
#[verifier::opaque]
pub open spec fn board_after_ep(st: FenV, o: int, t: int) -> Seq<Piece> {
    if st.board[o].kind == PieceKind::Pawn && t == st.en_passant as int && in_board(
        ep_capture_sq(t),
    ) {
        st.board.update(ep_capture_sq(t), empty_piece())
    } else {
        st.board
    }
}

/// The move is a king moving two files, which is how castling intent is
/// recognized.
pub open spec fn is_castle_move(st: FenV, o: int, t: int) -> bool {
    st.board[o].kind == PieceKind::King && (sq_col(t) - sq_col(o) == 2 || sq_col(o) - sq_col(t)
        == 2)
}

/// The corner the castling rook leaves.
pub open spec fn rook_from_sq(o: int, t: int) -> int {
    8 * sq_row(o) + (if sq_col(t) > sq_col(o) {
        7int
    } else {
        0int
    })
}

/// The square next to the king's destination that the castling rook reaches.
pub open spec fn rook_to_sq(o: int, t: int) -> int {
    8 * sq_row(t) + (if sq_col(t) > sq_col(o) {
        5int
    } else {
        3int
    })
}

/// The board after the castling rook relocation.
#[verifier::opaque]
pub open spec fn board_after_castle(st: FenV, o: int, t: int) -> Seq<Piece> {
    let b1 = board_after_ep(st, o, t);
    if is_castle_move(st, o, t) {
        b1.update(rook_to_sq(o, t), b1[rook_from_sq(o, t)]).update(rook_from_sq(o, t), empty_piece())
    } else {
        b1
    }
}

/// The castling rights after the move: castling clears both of the mover's
/// rights, and a rook move clears the right of the wing it leaves from.
#[verifier::opaque]
pub open spec fn castle_after(st: FenV, o: int, t: int) -> CastleRights {
    let c1 = if is_castle_move(st, o, t) {
        clear_side_rights(st.castle, st.board[o].color)
    } else {
        st.castle
    };
    if st.board[o].kind == PieceKind::Rook {
        clear_one_right(c1, st.board[o].color, sq_col(o) == 7)
    } else {
        c1
    }
}

/// The en-passant target after the move: the square a double-pushing pawn
/// passed over, otherwise the sentinel.
#[verifier::opaque]
pub open spec fn ep_after(st: FenV, o: int, t: int) -> u8 {
    if is_double_push(st, o, t) {
        (8 * ((sq_row(o) + sq_row(t)) / 2) + sq_col(o)) as u8
    } else {
        64u8
    }
}

/// The halfmove clock after the move: reset by a capture or a pawn move,
/// stepped otherwise.
#[verifier::opaque]
pub open spec fn half_after(st: FenV, o: int, t: int) -> u8 {
    if st.board[t].kind != PieceKind::Vacant || st.board[o].kind == PieceKind::Pawn {
        0u8
    } else {
        (st.halfmove_clock + 1) as u8
    }
}

/// The piece standing on the target after the move: the mover, promoted when
/// the move promotes, and marked as having moved.
#[verifier::opaque]
pub open spec fn moved_piece(st: FenV, o: int, t: int, pk: PieceKind) -> Piece {
    Piece {
        kind: if is_promo_move(st, o, t) {
            pk
        } else {
            st.board[o].kind
        },
        color: st.board[o].color,
        moved: true,
    }
}

/// The state after applying the move `o -> t` (promoting to `pk` when the
/// move promotes): en-passant capture removal, castling rook relocation and
/// rights clearing, rook-move rights clearing, promotion, en-passant target
/// update, clock bookkeeping, the piece moved and marked, the fullmove
/// counter stepped after a dark move, and the side to move toggled.
pub open spec fn spec_apply(st: FenV, o: int, t: int, pk: PieceKind) -> FenV {
    FenV {
        board: board_after_castle(st, o, t).update(t, moved_piece(st, o, t, pk)).update(
            o,
            empty_piece(),
        ),
        color: !st.color,
        castle: castle_after(st, o, t),
        en_passant: ep_after(st, o, t),
        halfmove_clock: half_after(st, o, t),
        fullmove_clock: if st.color {
            (st.fullmove_clock + 1) as u16
        } else {
            st.fullmove_clock
        },
    }
}

/// Whether the move list holds the pair `(origin, target)`.
fn contains_move(v: &Vec<(u8, u8)>, origin: u8, target: u8) -> (r: bool)
    ensures
        r == v@.contains((origin, target)),
{
    let mut k: usize = 0;
    while k < v.len()
        invariant
            k <= v@.len(),
            forall|j: int| 0 <= j < k ==> v@[j] != (origin, target),
        decreases v@.len() - k,
    {
        let m = v[k];
        if m.0 == origin && m.1 == target {
            proof {
                assert(v@[k as int] == (origin, target));
            }
            return true;
        }
        k = k + 1;
    }
    false
}

/// The error text for a rejected move, naming the requested coordinates and
/// their square indices.
fn illegal_move_message(origin: &str, target: &str, o: u8, t: u8) -> String {
    let mut v = chars_of(origin);
    let mut tv = chars_of(target);
    v.append(&mut tv);
    v.push(' ');
    v.push('(');
    push_decimal(&mut v, o as u16);
    v.push('-');
    push_decimal(&mut v, t as u16);
    v.push(')');
    v.push(' ');
    let mut rest = chars_of("is not a legal move!");
    v.append(&mut rest);
    string_from_chars(&v)
}

impl Position {
    /// The snapshot's ghost value, if one is held.
    pub open spec fn snapshot_view(self) -> Option<FenV> {
        match self.old_position {
            Some(p) => Some(p@),
            None => None,
        }
    }

    /// Structural validity of the live state and of the snapshot, if any.
    pub open spec fn wf(self) -> bool {
        &&& self.state@.wf()
        &&& match self.old_position {
            Some(p) => p@.wf(),
            None => true,
        }
    }

    /// A position installed from a descriptor; the descriptor text itself is
    /// cached as the serialized form until the first mutation.
    pub fn from(fen_string: &str) -> (r: Position)
        requires
            wf_descriptor(fen_string@),
        ensures
            r.state@ == spec_parse_fen(fen_string@),
            r.fen@ == fen_string@,
            r.old_position is None,
            r.wf(),
    {
        Position {
            state: ParsedFEN::from(fen_string),
            fen: fen_string.to_owned(),
            old_position: None,
        }
    }

    /// The starting position.
    pub fn new() -> (r: Position)
        ensures
            r.state@ == initial_fen(),
            r.fen@ == spec_fen_chars(initial_fen()),
            r.old_position is None,
            r.wf(),
    {
        let state = ParsedFEN::new();
        let fen = state.to_string();
        Position { state, fen, old_position: None }
    }

    /// One step from `origin_square` along a direction offset, offered when it
    /// stays on the board without wrapping a file edge and the target is empty
    /// or an enemy.
    pub fn generate_one_move(&self, offset: isize, origin_square: usize) -> (r: Vec<(u8, u8)>)
        requires
            self.wf(),
            origin_square < 64,
            offset == 1 || offset == -1 || offset == 8 || offset == -8 || offset == 9 || offset
                == -9 || offset == 7 || offset == -7,
        ensures
            forall|m: (u8, u8)|
                #[trigger] r@.contains(m) <==> (m.0 == origin_square as u8 && one_step_ok(
                    self.state@,
                    self.state@.color,
                    origin_square as int,
                    off_dr(offset as int),
                    off_dc(offset as int),
                    m.1 as int,
                )),
    {
        let mut arr: Vec<(u8, u8)> = Vec::new();
        let row = origin_square / 8;
        let col = origin_square % 8;
        let (dr, dc): (isize, isize) = match offset {
            8 => (1, 0),
            -8 => (-1, 0),
            1 => (0, 1),
            -1 => (0, -1),
            9 => (1, 1),
            7 => (1, -1),
            -7 => (-1, 1),
            _ => (-1, -1),
        };
        proof {
            lemma_rowcol(origin_square as int);
        }
        let nr = row as isize + dr;
        let nc = col as isize + dc;
        if nr < 0 || nr > 7 || nc < 0 || nc > 7 {
            return arr;
        }
        let t = (nr as usize) * 8 + (nc as usize);
        proof {
            lemma_sq_of_rowcol(nr as int, nc as int);
        }
        let p = self.state.board[t];
        if p.kind == PieceKind::Vacant || p.color != self.state.color {
            let ghost pre = arr@;
            arr.push((origin_square as u8, t as u8));
            proof {
                lemma_push_contains(pre, (origin_square as u8, t as u8));
            }
        }
        arr
    }

    /// The ray from `origin_square` along a direction offset: one square at a
    /// time until the board edge or the first occupied square, which is
    /// offered as a capture exactly when it holds an enemy.
    pub fn generate_sliding_move(&self, offset: isize, origin_square: usize) -> (r: Vec<(u8, u8)>)
        requires
            self.wf(),
            origin_square < 64,
            offset == 1 || offset == -1 || offset == 8 || offset == -8 || offset == 9 || offset
                == -9 || offset == 7 || offset == -7,
        ensures
            forall|m: (u8, u8)|
                #[trigger] r@.contains(m) <==> (m.0 == origin_square as u8 && ray_move_ok(
                    self.state@,
                    self.state@.color,
                    origin_square as int,
                    off_dr(offset as int),
                    off_dc(offset as int),
                    m.1 as int,
                )),
    {
        let mut arr: Vec<(u8, u8)> = Vec::new();
        let (dr, dc): (isize, isize) = match offset {
            8 => (1, 0),
            -8 => (-1, 0),
            1 => (0, 1),
            -1 => (0, -1),
            9 => (1, 1),
            7 => (1, -1),
            -7 => (-1, 1),
            _ => (-1, -1),
        };
        let ghost sdr = off_dr(offset as int);
        let ghost sdc = off_dc(offset as int);
        let ghost col = self.state@.color;
        let ghost orig = origin_square as int;
        proof {
            assert(dr as int == sdr && dc as int == sdc);
        }
        let mut cur: usize = origin_square;
        loop
            invariant_except_break
                cur < 64,
                self.wf(),
                dr as int == sdr,
                dc as int == sdc,
                dir_ok(sdr, sdc),
                orig == origin_square as int,
                col == self.state@.color,
                origin_square < 64,
                forall|m: (u8, u8)|
                    #[trigger] arr@.contains(m) ==> (m.0 == origin_square as u8 && (m.1 as int)
                        < 64),
                forall|t: int|
                    0 <= t < 64 ==> (#[trigger] ray_move_ok(self.state@, col, orig, sdr, sdc, t)
                        <==> (arr@.contains((origin_square as u8, t as u8)) || ray_move_ok(
                        self.state@,
                        col,
                        cur as int,
                        sdr,
                        sdc,
                        t,
                    ))),
            ensures
                forall|m: (u8, u8)|
                    #[trigger] arr@.contains(m) <==> (m.0 == origin_square as u8 && ray_move_ok(
                        self.state@,
                        col,
                        orig,
                        sdr,
                        sdc,
                        m.1 as int,
                    )),
            decreases (if 8 * sdr + sdc > 0 {
                64 - cur as int
            } else {
                cur as int
            }),
        {
            let row = cur / 8;
            let c0 = cur % 8;
            proof {
                lemma_rowcol(cur as int);
            }
            let nr = row as isize + dr;
            let nc = c0 as isize + dc;
            if nr < 0 || nr > 7 || nc < 0 || nc > 7 {
                proof {
                    assert forall|m: (u8, u8)| #[trigger]
                        arr@.contains(m) <==> (m.0 == origin_square as u8 && ray_move_ok(
                            self.state@,
                            col,
                            orig,
                            sdr,
                            sdc,
                            m.1 as int,
                        )) by {
                        if m.0 == origin_square as u8 && ray_move_ok(
                            self.state@,
                            col,
                            orig,
                            sdr,
                            sdc,
                            m.1 as int,
                        ) {
                            lemma_ray_props(self.state@, col, orig, sdr, sdc, m.1 as int);
                        }
                    }
                }
                break ;
            }
            let nxt = (nr as usize) * 8 + (nc as usize);
            proof {
                lemma_sq_of_rowcol(nr as int, nc as int);
                assert(nxt as int == cur as int + 8 * sdr + sdc);
            }
            let p = self.state.board[nxt];
            if p.kind == PieceKind::Vacant {
                let ghost pre = arr@;
                arr.push((origin_square as u8, nxt as u8));
                proof {
                    lemma_push_contains(pre, (origin_square as u8, nxt as u8));
                }
                cur = nxt;
            } else if p.color != self.state.color {
                let ghost pre = arr@;
                arr.push((origin_square as u8, nxt as u8));
                proof {
                    lemma_push_contains(pre, (origin_square as u8, nxt as u8));
                    assert forall|m: (u8, u8)| #[trigger]
                        arr@.contains(m) <==> (m.0 == origin_square as u8 && ray_move_ok(
                            self.state@,
                            col,
                            orig,
                            sdr,
                            sdc,
                            m.1 as int,
                        )) by {
                        if m.0 == origin_square as u8 && ray_move_ok(
                            self.state@,
                            col,
                            orig,
                            sdr,
                            sdc,
                            m.1 as int,
                        ) {
                            lemma_ray_props(self.state@, col, orig, sdr, sdc, m.1 as int);
                        }
                    }
                }
                break ;
            } else {
                proof {
                    assert forall|m: (u8, u8)| #[trigger]
                        arr@.contains(m) <==> (m.0 == origin_square as u8 && ray_move_ok(
                            self.state@,
                            col,
                            orig,
                            sdr,
                            sdc,
                            m.1 as int,
                        )) by {
                        if m.0 == origin_square as u8 && ray_move_ok(
                            self.state@,
                            col,
                            orig,
                            sdr,
                            sdc,
                            m.1 as int,
                        ) {
                            lemma_ray_props(self.state@, col, orig, sdr, sdc, m.1 as int);
                        }
                    }
                }
                break ;
            }
        }
        arr
    }

    /// Appends one sliding direction's moves from `origin_square`.
    fn push_sliding(&self, offset: isize, origin_square: usize, out: &mut Vec<(u8, u8)>)
        requires
            self.wf(),
            origin_square < 64,
            offset == 1 || offset == -1 || offset == 8 || offset == -8 || offset == 9 || offset
                == -9 || offset == 7 || offset == -7,
        ensures
            forall|m: (u8, u8)|
                #[trigger] final(out)@.contains(m) <==> (old(out)@.contains(m) || (m.0
                    == origin_square as u8 && ray_move_ok(
                    self.state@,
                    self.state@.color,
                    origin_square as int,
                    off_dr(offset as int),
                    off_dc(offset as int),
                    m.1 as int,
                ))),
    {
        let mut v = self.generate_sliding_move(offset, origin_square);
        let ghost pre = out@;
        let ghost vv = v@;
        out.append(&mut v);
        proof {
            lemma_concat_contains(pre, vv);
        }
    }

    /// Appends one king or single-step direction's move from `origin_square`.
    fn push_one_step(&self, offset: isize, origin_square: usize, out: &mut Vec<(u8, u8)>)
        requires
            self.wf(),
            origin_square < 64,
            offset == 1 || offset == -1 || offset == 8 || offset == -8 || offset == 9 || offset
                == -9 || offset == 7 || offset == -7,
        ensures
            forall|m: (u8, u8)|
                #[trigger] final(out)@.contains(m) <==> (old(out)@.contains(m) || (m.0
                    == origin_square as u8 && one_step_ok(
                    self.state@,
                    self.state@.color,
                    origin_square as int,
                    off_dr(offset as int),
                    off_dc(offset as int),
                    m.1 as int,
                ))),
    {
        let mut v = self.generate_one_move(offset, origin_square);
        let ghost pre = out@;
        let ghost vv = v@;
        out.append(&mut v);
        proof {
            lemma_concat_contains(pre, vv);
        }
    }

    /// Every pseudo-legal move of the side to move, as origin-target index
    /// pairs. All 64 squares are scanned; a pair is in the list exactly when
    /// `move_ok` holds of it.
    #[verifier::loop_isolation(false)]
    pub fn generate_legal_moves(&self) -> (r: Vec<(u8, u8)>)
        requires
            self.wf(),
        ensures
            forall|m: (u8, u8)|
                #[trigger] r@.contains(m) <==> move_ok(self.state@, m.0 as int, m.1 as int),
    {
        let mut all_legal_moves: Vec<(u8, u8)> = Vec::new();
        let mut i: usize = 0;
        while i < 64
            invariant
                i <= 64,
                forall|m: (u8, u8)|
                    #[trigger] all_legal_moves@.contains(m) <==> ((m.0 as int) < i as int
                        && move_ok(self.state@, m.0 as int, m.1 as int)),
            decreases 64 - i,
        {
            let piece = self.state.board[i];
            let ghost pre = all_legal_moves@;
            let ghost st = self.state@;
            if piece.kind != PieceKind::Vacant && piece.color == self.state.color {
                match piece.kind {
                    PieceKind::Pawn => {
                        gen_pawn_moves(&self.state, i, &mut all_legal_moves);
                    },
                    PieceKind::Knight => {
                        gen_knight_moves(&self.state, i, &mut all_legal_moves);
                    },
                    PieceKind::Bishop => {
                        self.push_sliding(9, i, &mut all_legal_moves);
                        self.push_sliding(7, i, &mut all_legal_moves);
                        self.push_sliding(-7, i, &mut all_legal_moves);
                        self.push_sliding(-9, i, &mut all_legal_moves);
                    },
                    PieceKind::Rook => {
                        self.push_sliding(8, i, &mut all_legal_moves);
                        self.push_sliding(1, i, &mut all_legal_moves);
                        self.push_sliding(-1, i, &mut all_legal_moves);
                        self.push_sliding(-8, i, &mut all_legal_moves);
                    },
                    PieceKind::Queen => {
                        self.push_sliding(8, i, &mut all_legal_moves);
                        self.push_sliding(1, i, &mut all_legal_moves);
                        self.push_sliding(-1, i, &mut all_legal_moves);
                        self.push_sliding(-8, i, &mut all_legal_moves);
                        self.push_sliding(9, i, &mut all_legal_moves);
                        self.push_sliding(7, i, &mut all_legal_moves);
                        self.push_sliding(-7, i, &mut all_legal_moves);
                        self.push_sliding(-9, i, &mut all_legal_moves);
                    },
                    PieceKind::King => {
                        self.push_one_step(8, i, &mut all_legal_moves);
                        self.push_one_step(1, i, &mut all_legal_moves);
                        self.push_one_step(-1, i, &mut all_legal_moves);
                        self.push_one_step(-8, i, &mut all_legal_moves);
                        self.push_one_step(9, i, &mut all_legal_moves);
                        self.push_one_step(7, i, &mut all_legal_moves);
                        self.push_one_step(-7, i, &mut all_legal_moves);
                        self.push_one_step(-9, i, &mut all_legal_moves);
                        gen_castle_moves(&self.state, i, &mut all_legal_moves);
                        proof {
                            assert forall|m: (u8, u8)| #[trigger]
                                all_legal_moves@.contains(m) <==> (pre.contains(m) || (m.0
                                    == i as u8 && king_move_ok(st, i as int, m.1 as int))) by {
                                lemma_king_step_dirs(st, st.color, i as int, m.1 as int);
                            }
                        }
                    },
                    PieceKind::Vacant => {},
                }
            }
            proof {
                assert forall|m: (u8, u8)| #[trigger]
                    all_legal_moves@.contains(m) <==> ((m.0 as int) < i + 1 && move_ok(
                        st,
                        m.0 as int,
                        m.1 as int,
                    )) by {}
            }
            i = i + 1;
        }
        proof {
            assert forall|m: (u8, u8)| #[trigger]
                all_legal_moves@.contains(m) <==> move_ok(
                    self.state@,
                    m.0 as int,
                    m.1 as int,
                ) by {}
        }
        all_legal_moves
    }

    /// Whether applying `origin -> target` would require a promotion symbol:
    /// the move is pseudo-legal and takes a pawn to the last rank. A driver
    /// should consult this before calling `make_move` with an empty symbol.
    pub fn promotion_required(&self, origin: &str, target: &str) -> (r: bool)
        requires
            self.wf(),
        ensures
            r == (move_ok(
                self.state@,
                spec_parse_square(origin@) as int,
                spec_parse_square(target@) as int,
            ) && is_promo_move(
                self.state@,
                spec_parse_square(origin@) as int,
                spec_parse_square(target@) as int,
            )),
    {
        let o = parse_square(origin);
        let t = parse_square(target);
        let legal_moves = self.generate_legal_moves();
        if !contains_move(&legal_moves, o, t) {
            return false;
        }
        proof {
            lemma_move_ok_props(self.state@, o as int, t as int);
        }
        self.state.board[o as usize].kind == PieceKind::Pawn && (t / 8 == 7 || t / 8 == 0)
    }

    /// Applies the requested move when it is pseudo-legal, snapshotting the
    /// prior state and refreshing the serialized form; rejects it otherwise,
    /// leaving the position unchanged. The promotion symbol must be non-empty
    /// exactly when the move promotes a pawn.
    #[verifier::rlimit(100)]
    pub fn make_move(&mut self, origin: &str, target: &str, promotion: &str) -> (r: Result<
        (),
        String,
    >)
        requires
            old(self).wf(),
            old(self).state@.halfmove_clock < 255,
            old(self).state@.fullmove_clock < 65535,
            (move_ok(
                old(self).state@,
                spec_parse_square(origin@) as int,
                spec_parse_square(target@) as int,
            ) && is_promo_move(
                old(self).state@,
                spec_parse_square(origin@) as int,
                spec_parse_square(target@) as int,
            )) ==> promotion@.len() >= 1,
        ensures
            final(self).wf(),
            ({
                let o = spec_parse_square(origin@) as int;
                let t = spec_parse_square(target@) as int;
                if move_ok(old(self).state@, o, t) {
                    &&& r is Ok
                    &&& final(self).state@ == spec_apply(
                        old(self).state@,
                        o,
                        t,
                        promo_kind_of(promotion@),
                    )
                    &&& final(self).fen@ == spec_fen_chars(final(self).state@)
                    &&& final(self).snapshot_view() == Some(old(self).state@)
                } else {
                    &&& r is Err
                    &&& final(self).state@ == old(self).state@
                    &&& final(self).fen@ == old(self).fen@
                    &&& final(self).snapshot_view() == old(self).snapshot_view()
                }
            }),
    {
        let origin_as_u8: u8 = parse_square(origin);
        let target_as_u8: u8 = parse_square(target);

        let legal_moves: Vec<(u8, u8)> = self.generate_legal_moves();
        if !contains_move(&legal_moves, origin_as_u8, target_as_u8) {
            return Err(illegal_move_message(origin, target, origin_as_u8, target_as_u8));
        }

        proof {
            lemma_move_ok_props(
                self.state@,
                origin_as_u8 as int,
                target_as_u8 as int,
            );
        }
        let old_board: ParsedFEN = self.state.clone();
        apply_move_state(&mut self.state, origin_as_u8, target_as_u8, promotion);
        self.fen = self.state.to_string();
        self.old_position = Some(old_board);
        Ok(())
    }

    /// Restores the state saved by the last applied move and drops it, or
    /// fails without touching anything when no prior state is held.
    pub fn unmake_move(&mut self) -> (r: Result<(), String>)
        requires
            old(self).wf(),
        ensures
            final(self).wf(),
            (old(self).snapshot_view() matches Some(st) ==> {
                &&& r is Ok
                &&& final(self).state@ == st
                &&& final(self).fen@ == spec_fen_chars(st)
                &&& final(self).snapshot_view() is None
            }),
            (old(self).snapshot_view() is None ==> {
                &&& r is Err
                &&& final(self).state@ == old(self).state@
                &&& final(self).fen@ == old(self).fen@
                &&& final(self).snapshot_view() is None
            }),
    {
        let restored: ParsedFEN = match &self.old_position {
            Some(old_state) => old_state.clone(),
            None => {
                return Err("Cannot unmake move: No former state found!".to_owned());
            },
        };
        self.state = restored;
        self.old_position = None;
        self.fen = self.state.to_string();
        Ok(())
    }
}

/// The mutation core of `make_move`: applies an already validated move to the
/// board state, special rules included.
#[verifier::rlimit(100)]
#[verifier::spinoff_prover]
fn apply_move_state(state: &mut ParsedFEN, origin_as_u8: u8, target_as_u8: u8, promotion: &str)
    requires
        old(state)@.wf(),
        origin_as_u8 < 64,
        target_as_u8 < 64,
        origin_as_u8 != target_as_u8,
        old(state)@.halfmove_clock < 255,
        old(state)@.fullmove_clock < 65535,
        is_promo_move(old(state)@, origin_as_u8 as int, target_as_u8 as int) ==> promotion@.len()
            >= 1,
    ensures
        final(state)@ == spec_apply(
            old(state)@,
            origin_as_u8 as int,
            target_as_u8 as int,
            promo_kind_of(promotion@),
        ),
        final(state)@.wf(),
{
        let ghost st0 = state@;
        let ghost oo = origin_as_u8 as int;
        let ghost tt = target_as_u8 as int;
        let oidx = origin_as_u8 as usize;
        let tidx = target_as_u8 as usize;

        let mover: Piece = state.board[oidx];
        let target_piece: Piece = state.board[tidx];

        let orow: u8 = origin_as_u8 / 8;
        let ocol: u8 = origin_as_u8 % 8;
        let trow: u8 = target_as_u8 / 8;
        let tcol: u8 = target_as_u8 % 8;

        // Is a pawn capturing en passant?
        if target_as_u8 == state.en_passant && mover.kind == PieceKind::Pawn {
            let cap: i32 = if trow == 5 {
                target_as_u8 as i32 - 8
            } else {
                target_as_u8 as i32 + 8
            };
            if 0 <= cap && cap < 64 {
                state.board[cap as usize] = Piece {
                    kind: PieceKind::Vacant,
                    color: false,
                    moved: false,
                };
            }
        }
        proof {
            assert(state@.board =~= board_after_ep(st0, oo, tt)) by {
                reveal(board_after_ep);
            }
        }

        // Is a king castling?
        if mover.kind == PieceKind::King && (tcol as i32 - ocol as i32 == 2 || ocol as i32
            - tcol as i32 == 2) {
            let rook_from: usize = 8 * (orow as usize) + (if tcol > ocol {
                7
            } else {
                0
            });
            let rook_to: usize = 8 * (trow as usize) + (if tcol > ocol {
                5
            } else {
                3
            });
            let rook_piece = state.board[rook_from];
            state.board[rook_to] = rook_piece;
            state.board[rook_from] = Piece {
                kind: PieceKind::Vacant,
                color: false,
                moved: false,
            };
            let cr = state.castle;
            state.castle = if mover.color {
                CastleRights { dark_kingside: false, dark_queenside: false, ..cr }
            } else {
                CastleRights { light_kingside: false, light_queenside: false, ..cr }
            };
        }
        proof {
            assert(state@.board =~= board_after_castle(st0, oo, tt)) by {
                reveal(board_after_castle);
            }
        }

        // Is a rook moving?
        if mover.kind == PieceKind::Rook {
            let cr = state.castle;
            state.castle = if mover.color {
                if ocol == 7 {
                    CastleRights { dark_kingside: false, ..cr }
                } else {
                    CastleRights { dark_queenside: false, ..cr }
                }
            } else {
                if ocol == 7 {
                    CastleRights { light_kingside: false, ..cr }
                } else {
                    CastleRights { light_queenside: false, ..cr }
                }
            };
        }
        proof {
            assert(state@.castle == castle_after(st0, oo, tt)) by {
                reveal(castle_after);
            }
        }

        // Has a pawn reached the end row?
        let final_kind: PieceKind = if mover.kind == PieceKind::Pawn && (trow == 7 || trow == 0) {
            let pv = chars_of(promotion);
            Piece::from(&pv[0]).kind
        } else {
            mover.kind
        };
        proof {
            assert(Piece { kind: final_kind, color: mover.color, moved: true } == moved_piece(
                st0,
                oo,
                tt,
                promo_kind_of(promotion@),
            )) by {
                reveal(moved_piece);
            }
        }

        // Has a pawn moved 2 squares forward?
        if mover.kind == PieceKind::Pawn && (trow as i32 - orow as i32 == 2 || orow as i32
            - trow as i32 == 2) {
            let ep_sq: usize = 8 * (((orow as usize) + (trow as usize)) / 2) + (ocol as usize);
            state.en_passant = ep_sq as u8;
        } else {
            state.en_passant = 64;
        }
        proof {
            assert(state@.en_passant == ep_after(st0, oo, tt)) by {
                reveal(ep_after);
            }
        }

        // Are we capturing a piece, or is this a pawn move?
        if target_piece.kind != PieceKind::Vacant || mover.kind == PieceKind::Pawn {
            state.halfmove_clock = 0;
        } else {
            state.halfmove_clock = state.halfmove_clock + 1;
        }
        proof {
            assert(state@.halfmove_clock == half_after(st0, oo, tt)) by {
                reveal(half_after);
            }
        }

        // Move the piece, marking it as moved.
        state.board[tidx] = Piece { kind: final_kind, color: mover.color, moved: true };
        state.board[oidx] = Piece { kind: PieceKind::Vacant, color: false, moved: false };

        if state.color {
            state.fullmove_clock = state.fullmove_clock + 1;
        }
        state.color = !state.color;

        proof {
            let ap = spec_apply(st0, oo, tt, promo_kind_of(promotion@));
            assert(state@.board =~= ap.board);
            assert(state@ =~~= ap);
        }

}

} // verus!
