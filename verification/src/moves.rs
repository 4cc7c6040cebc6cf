//! Pseudo-legal move rules, one predicate per piece kind, and the generators
//! for the piece kinds with fixed candidate squares (pawn, knight, and the
//! two-square castling king moves). Moves obey piece geometry and occupancy
//! but are not checked against leaving the mover's king capturable.

use vstd::prelude::*;
use crate::fen::{CastleRights, FenV, ParsedFEN};
use crate::piece::PieceKind;
use crate::square::{in_board, lemma_rowcol, lemma_sq_of_rowcol, sq_col, sq_row};
use crate::text::lemma_push_contains;

verus! {

pub open spec fn is_empty_sq(st: FenV, i: int) -> bool {
    st.board[i].kind == PieceKind::Vacant
}

/// Square `i` holds a piece of the side opposing `c`.
pub open spec fn has_enemy(st: FenV, i: int, c: bool) -> bool {
    st.board[i].kind != PieceKind::Vacant && st.board[i].color != c
}

/// Square `i` can be landed on by side `c`: empty, or an opposing piece.
pub open spec fn target_free(st: FenV, i: int, c: bool) -> bool {
    st.board[i].kind == PieceKind::Vacant || st.board[i].color != c
}

/// The square one step ahead of `o` in side `c`'s pawn direction.
pub open spec fn pawn_fwd(c: bool, o: int) -> int {
    if c {
        o - 8
    } else {
        o + 8
    }
}

/// The pawn moves from `o`: single push onto an empty square, double push for
/// a pawn that has never moved with both squares empty, and the two diagonal
/// captures guarded against file wraparound.
pub open spec fn pawn_move_ok(st: FenV, o: int, t: int) -> bool {
    let c = st.board[o].color;
    ||| (t == pawn_fwd(c, o) && in_board(t) && is_empty_sq(st, t))
    ||| (t == pawn_fwd(c, pawn_fwd(c, o)) && in_board(pawn_fwd(c, o)) && in_board(t) && is_empty_sq(
        st,
        pawn_fwd(c, o),
    ) && is_empty_sq(st, t) && !st.board[o].moved)
    ||| (t == pawn_fwd(c, o) + 1 && sq_col(o) != 7 && in_board(t) && has_enemy(st, t, c))
    ||| (t == pawn_fwd(c, o) - 1 && sq_col(o) != 0 && in_board(t) && has_enemy(st, t, c))
}

/// `t` is a knight's jump away from `o`: both on the board, ranks and files
/// differing by (1, 2) or (2, 1), which rules out file wraparound.
pub open spec fn knight_jump(o: int, t: int) -> bool {
    let dr = sq_row(t) - sq_row(o);
    let dc = sq_col(t) - sq_col(o);
    &&& in_board(o)
    &&& in_board(t)
    &&& ((dr == 2 || dr == -2) && (dc == 1 || dc == -1) || (dr == 1 || dr == -1) && (dc == 2 || dc
        == -2))
}

pub open spec fn knight_move_ok(st: FenV, o: int, t: int) -> bool {
    knight_jump(o, t) && target_free(st, t, st.board[o].color)
}

/// `t` is one king step from `o`: both on the board, ranks and files each
/// differing by at most one, and not the same square.
pub open spec fn king_step(o: int, t: int) -> bool {
    let dr = sq_row(t) - sq_row(o);
    let dc = sq_col(t) - sq_col(o);
    &&& in_board(o)
    &&& in_board(t)
    &&& -1 <= dr <= 1
    &&& -1 <= dc <= 1
    &&& !(dr == 0 && dc == 0)
}

pub open spec fn kingside_right(cr: CastleRights, c: bool) -> bool {
    if c {
        cr.dark_kingside
    } else {
        cr.light_kingside
    }
}

pub open spec fn queenside_right(cr: CastleRights, c: bool) -> bool {
    if c {
        cr.dark_queenside
    } else {
        cr.light_queenside
    }
}

/// The two-square castling king moves. The generator owns this choice: a
/// castling candidate is offered exactly when the king stands on its original
/// square, the corresponding right is still held, and the squares strictly
/// between the king and that rook's corner are empty. The rook itself is not
/// inspected here; applying the move relocates whatever stands in the corner.
pub open spec fn castle_move_ok(st: FenV, o: int, t: int) -> bool {
    let c = st.board[o].color;
    &&& sq_col(o) == 4
    &&& sq_row(o) == (if c {
        7int
    } else {
        0int
    })
    &&& {
        ||| (t == o + 2 && kingside_right(st.castle, c) && is_empty_sq(st, o + 1) && is_empty_sq(
            st,
            o + 2,
        ))
        ||| (t == o - 2 && queenside_right(st.castle, c) && is_empty_sq(st, o - 1) && is_empty_sq(
            st,
            o - 2,
        ) && is_empty_sq(st, o - 3))
    }
}

pub open spec fn king_move_ok(st: FenV, o: int, t: int) -> bool {
    (king_step(o, t) && target_free(st, t, st.board[o].color)) || castle_move_ok(st, o, t)
}

/// A sliding step from `p` by one rank step `dr` and one file step `dc` stays
/// on the board.
pub open spec fn step_ok(p: int, dr: int, dc: int) -> bool {
    &&& in_board(p)
    &&& 0 <= sq_row(p) + dr <= 7
    &&& 0 <= sq_col(p) + dc <= 7
}

pub open spec fn dir_ok(dr: int, dc: int) -> bool {
    &&& -1 <= dr <= 1
    &&& -1 <= dc <= 1
    &&& !(dr == 0 && dc == 0)
}

/// `t` is reachable from `p` along direction `(dr, dc)`: every square strictly
/// before `t` on the ray is empty, and `t` itself is empty or holds an enemy
/// of side `c`. The ray stops at the board edge and at the first occupied
/// square.
pub open spec fn ray_move_ok(st: FenV, c: bool, p: int, dr: int, dc: int, t: int) -> bool
    decreases (if 8 * dr + dc > 0 {
        64 - p
    } else {
        p
    }),
{
    &&& dir_ok(dr, dc)
    &&& step_ok(p, dr, dc)
    &&& {
        let n = p + 8 * dr + dc;
        if n == t {
            target_free(st, n, c)
        } else {
            is_empty_sq(st, n) && ray_move_ok(st, c, n, dr, dc, t)
        }
    }
}

pub open spec fn bishop_move_ok(st: FenV, o: int, t: int) -> bool {
    let c = st.board[o].color;
    ||| ray_move_ok(st, c, o, 1, 1, t)
    ||| ray_move_ok(st, c, o, 1, -1, t)
    ||| ray_move_ok(st, c, o, -1, 1, t)
    ||| ray_move_ok(st, c, o, -1, -1, t)
}

pub open spec fn rook_move_ok(st: FenV, o: int, t: int) -> bool {
    let c = st.board[o].color;
    ||| ray_move_ok(st, c, o, 1, 0, t)
    ||| ray_move_ok(st, c, o, -1, 0, t)
    ||| ray_move_ok(st, c, o, 0, 1, t)
    ||| ray_move_ok(st, c, o, 0, -1, t)
}

pub open spec fn queen_move_ok(st: FenV, o: int, t: int) -> bool {
    rook_move_ok(st, o, t) || bishop_move_ok(st, o, t)
}

/// The pseudo-legal move relation: the origin holds a piece of the side to
/// move, and the target obeys that piece kind's geometry and occupancy rules.
pub open spec fn move_ok(st: FenV, o: int, t: int) -> bool {
    &&& in_board(o)
    &&& st.board[o].kind != PieceKind::Vacant
    &&& st.board[o].color == st.color
    &&& match st.board[o].kind {
        PieceKind::Pawn => pawn_move_ok(st, o, t),
        PieceKind::Knight => knight_move_ok(st, o, t),
        PieceKind::Bishop => bishop_move_ok(st, o, t),
        PieceKind::Rook => rook_move_ok(st, o, t),
        PieceKind::Queen => queen_move_ok(st, o, t),
        PieceKind::King => king_move_ok(st, o, t),
        PieceKind::Vacant => false,
    }
}

/// The single-step relation that one `generate_one_move` call covers.
pub open spec fn one_step_ok(st: FenV, c: bool, o: int, dr: int, dc: int, t: int) -> bool {
    &&& step_ok(o, dr, dc)
    &&& t == o + 8 * dr + dc
    &&& target_free(st, t, c)
}

/// The rank step a sliding offset denotes.
pub open spec fn off_dr(offset: int) -> int {
    if offset == 8 || offset == 9 || offset == 7 {
        1
    } else if offset == -8 || offset == -9 || offset == -7 {
        -1
    } else {
        0
    }
}

/// The file step a sliding offset denotes.
pub open spec fn off_dc(offset: int) -> int {
    if offset == 1 || offset == 9 || offset == -7 {
        1
    } else if offset == -1 || offset == -9 || offset == 7 {
        -1
    } else {
        0
    }
}

/// A ray target lies on the board, is free for the mover, and lies strictly
/// beyond the origin in the ray's direction.
pub proof fn lemma_ray_props(st: FenV, c: bool, p: int, dr: int, dc: int, t: int)
    requires
        ray_move_ok(st, c, p, dr, dc, t),
    ensures
        in_board(t),
        target_free(st, t, c),
        8 * dr + dc > 0 ==> t > p,
        8 * dr + dc < 0 ==> t < p,
    decreases (if 8 * dr + dc > 0 {
        64 - p
    } else {
        p
    }),
{
    let n = p + 8 * dr + dc;
    if n != t {
        lemma_ray_props(st, c, n, dr, dc, t);
    }
}

/// Every pseudo-legal move has an on-board target distinct from its origin.
pub proof fn lemma_move_ok_props(st: FenV, o: int, t: int)
    requires
        move_ok(st, o, t),
    ensures
        in_board(t),
        t != o,
{
    lemma_rowcol(o);
    match st.board[o].kind {
        PieceKind::Pawn => {},
        PieceKind::Knight => {
            lemma_rowcol(t);
        },
        PieceKind::Bishop => {
            let c = st.board[o].color;
            if ray_move_ok(st, c, o, 1, 1, t) {
                lemma_ray_props(st, c, o, 1, 1, t);
            }
            if ray_move_ok(st, c, o, 1, -1, t) {
                lemma_ray_props(st, c, o, 1, -1, t);
            }
            if ray_move_ok(st, c, o, -1, 1, t) {
                lemma_ray_props(st, c, o, -1, 1, t);
            }
            if ray_move_ok(st, c, o, -1, -1, t) {
                lemma_ray_props(st, c, o, -1, -1, t);
            }
        },
        PieceKind::Rook => {
            let c = st.board[o].color;
            if ray_move_ok(st, c, o, 1, 0, t) {
                lemma_ray_props(st, c, o, 1, 0, t);
            }
            if ray_move_ok(st, c, o, -1, 0, t) {
                lemma_ray_props(st, c, o, -1, 0, t);
            }
            if ray_move_ok(st, c, o, 0, 1, t) {
                lemma_ray_props(st, c, o, 0, 1, t);
            }
            if ray_move_ok(st, c, o, 0, -1, t) {
                lemma_ray_props(st, c, o, 0, -1, t);
            }
        },
        PieceKind::Queen => {
            let c = st.board[o].color;
            if ray_move_ok(st, c, o, 1, 1, t) {
                lemma_ray_props(st, c, o, 1, 1, t);
            }
            if ray_move_ok(st, c, o, 1, -1, t) {
                lemma_ray_props(st, c, o, 1, -1, t);
            }
            if ray_move_ok(st, c, o, -1, 1, t) {
                lemma_ray_props(st, c, o, -1, 1, t);
            }
            if ray_move_ok(st, c, o, -1, -1, t) {
                lemma_ray_props(st, c, o, -1, -1, t);
            }
            if ray_move_ok(st, c, o, 1, 0, t) {
                lemma_ray_props(st, c, o, 1, 0, t);
            }
            if ray_move_ok(st, c, o, -1, 0, t) {
                lemma_ray_props(st, c, o, -1, 0, t);
            }
            if ray_move_ok(st, c, o, 0, 1, t) {
                lemma_ray_props(st, c, o, 0, 1, t);
            }
            if ray_move_ok(st, c, o, 0, -1, t) {
                lemma_ray_props(st, c, o, 0, -1, t);
            }
        },
        PieceKind::King => {
            if king_step(o, t) && target_free(st, t, st.board[o].color) {
                lemma_rowcol(t);
            } else {
                lemma_sq_of_rowcol(sq_row(o), 2);
                lemma_sq_of_rowcol(sq_row(o), 6);
            }
        },
        PieceKind::Vacant => {},
    }
}

/// A king's single steps are exactly the eight direction offsets.
pub proof fn lemma_king_step_dirs(st: FenV, c: bool, o: int, t: int)
    requires
        in_board(o),
    ensures
        (king_step(o, t) && target_free(st, t, c)) <==> {
            ||| one_step_ok(st, c, o, 1, 0, t)
            ||| one_step_ok(st, c, o, 0, 1, t)
            ||| one_step_ok(st, c, o, 0, -1, t)
            ||| one_step_ok(st, c, o, -1, 0, t)
            ||| one_step_ok(st, c, o, 1, 1, t)
            ||| one_step_ok(st, c, o, 1, -1, t)
            ||| one_step_ok(st, c, o, -1, 1, t)
            ||| one_step_ok(st, c, o, -1, -1, t)
        },
{
    lemma_rowcol(o);
    if king_step(o, t) {
        lemma_rowcol(t);
    }
    assert forall|dr: int, dc: int|
        dir_ok(dr, dc) && step_ok(o, dr, dc) implies sq_row(o + 8 * dr + dc) == sq_row(o) + dr
        && sq_col(o + 8 * dr + dc) == sq_col(o) + dc && in_board(o + 8 * dr + dc) by {
        lemma_sq_of_rowcol(sq_row(o) + dr, sq_col(o) + dc);
    }
}

/// Appends the pawn moves from origin `i`.
#[verifier::loop_isolation(false)]
pub fn gen_pawn_moves(st: &ParsedFEN, i: usize, out: &mut Vec<(u8, u8)>)
    requires
        st@.wf(),
        i < 64,
        st@.board[i as int].kind == PieceKind::Pawn,
    ensures
        forall|m: (u8, u8)|
            #[trigger] final(out)@.contains(m) <==> (old(out)@.contains(m) || (m.0 == i as u8
                && pawn_move_ok(st@, i as int, m.1 as int))),
{
    let c = st.board[i].color;
    proof {
        lemma_rowcol(i as int);
    }
    let fwd: i32 = if c {
        i as i32 - 8
    } else {
        i as i32 + 8
    };
    // single and double push
    if 0 <= fwd && fwd < 64 {
        let t1 = fwd as usize;
        if st.board[t1].kind == PieceKind::Vacant {
            let ghost pre = out@;
            out.push((i as u8, t1 as u8));
            proof {
                lemma_push_contains(pre, (i as u8, t1 as u8));
            }
            let fwd2: i32 = if c {
                i as i32 - 16
            } else {
                i as i32 + 16
            };
            if 0 <= fwd2 && fwd2 < 64 {
                let t2 = fwd2 as usize;
                if st.board[t2].kind == PieceKind::Vacant && !st.board[i].moved {
                    let ghost pre2 = out@;
                    out.push((i as u8, t2 as u8));
                    proof {
                        lemma_push_contains(pre2, (i as u8, t2 as u8));
                    }
                }
            }
        }
    }
    // captures
    if i % 8 != 7 {
        let cap: i32 = fwd + 1;
        if 0 <= cap && cap < 64 {
            let tc = cap as usize;
            if st.board[tc].kind != PieceKind::Vacant && st.board[tc].color != c {
                let ghost pre3 = out@;
                out.push((i as u8, tc as u8));
                proof {
                    lemma_push_contains(pre3, (i as u8, tc as u8));
                }
            }
        }
    }
    if i % 8 != 0 {
        let cap: i32 = fwd - 1;
        if 0 <= cap && cap < 64 {
            let tc = cap as usize;
            if st.board[tc].kind != PieceKind::Vacant && st.board[tc].color != c {
                let ghost pre4 = out@;
                out.push((i as u8, tc as u8));
                proof {
                    lemma_push_contains(pre4, (i as u8, tc as u8));
                }
            }
        }
    }
}

/// Appends the knight moves from origin `i`: each of the eight jump offsets,
/// guarded so that no candidate leaves the board or wraps across a file edge.
pub fn gen_knight_moves(st: &ParsedFEN, i: usize, out: &mut Vec<(u8, u8)>)
    requires
        st@.wf(),
        i < 64,
        st@.board[i as int].kind == PieceKind::Knight,
        st@.board[i as int].color == st@.color,
    ensures
        forall|m: (u8, u8)|
            #[trigger] final(out)@.contains(m) <==> (old(out)@.contains(m) || (m.0 == i as u8
                && knight_move_ok(st@, i as int, m.1 as int))),
{
    let c = st.board[i].color;
    proof {
        lemma_rowcol(i as int);
    }
    let row = i / 8;
    let col = i % 8;
    let mut k: usize = 0;
    let ghost base = out@;
    while k < 8
        invariant
            st@.wf(),
            i < 64,
            st@.board[i as int].kind == PieceKind::Knight,
            st@.board[i as int].color == st@.color,
            c == st@.board[i as int].color,
            row == i / 8,
            col == i % 8,
            k <= 8,
            forall|m: (u8, u8)|
                #[trigger] out@.contains(m) <==> (base.contains(m) || (m.0 == i as u8 && exists|
                    j: int|
                    0 <= j < k && knight_target(i as int, j) == m.1 as int && knight_guard(
                        i as int,
                        j,
                    ) && target_free(st@, m.1 as int, c))),
        decreases 8 - k,
    {
        let (dr, dc): (i32, i32) = match k {
            0 => (2, 1),
            1 => (2, -1),
            2 => (-2, 1),
            3 => (-2, -1),
            4 => (1, 2),
            5 => (1, -2),
            6 => (-1, 2),
            _ => (-1, -2),
        };
        let nr: i32 = row as i32 + dr;
        let nc: i32 = col as i32 + dc;
        if 0 <= nr && nr < 8 && 0 <= nc && nc < 8 {
            let t = (nr as usize) * 8 + (nc as usize);
            proof {
                lemma_sq_of_rowcol(nr as int, nc as int);
            }
            let p = st.board[t];
            if p.kind == PieceKind::Vacant || p.color != c {
                let ghost pre = out@;
                out.push((i as u8, t as u8));
                proof {
                    lemma_push_contains(pre, (i as u8, t as u8));
                    assert(knight_target(i as int, k as int) == t as int);
                    assert(knight_guard(i as int, k as int));
                }
            }
        }
        k = k + 1;
        proof {
            assert forall|m: (u8, u8)| #[trigger] out@.contains(m) implies (base.contains(m) || (
            m.0 == i as u8 && exists|j: int|
                0 <= j < k && knight_target(i as int, j) == m.1 as int && knight_guard(i as int, j)
                    && target_free(st@, m.1 as int, c))) by {}
        }
    }
    proof {
        assert forall|m: (u8, u8)| #[trigger] out@.contains(m) <==> (base.contains(m) || (m.0
            == i as u8 && knight_move_ok(st@, i as int, m.1 as int))) by {
            lemma_knight_cases(st@, c, i as int, m.1 as int);
        }
    }
}

/// The candidate square of the `j`-th knight offset from `o`.
pub open spec fn knight_target(o: int, j: int) -> int {
    if j == 0 {
        o + 17
    } else if j == 1 {
        o + 15
    } else if j == 2 {
        o - 15
    } else if j == 3 {
        o - 17
    } else if j == 4 {
        o + 10
    } else if j == 5 {
        o + 6
    } else if j == 6 {
        o - 6
    } else {
        o - 10
    }
}

/// Whether the `j`-th knight offset from `o` stays on the board without
/// wrapping a file edge.
pub open spec fn knight_guard(o: int, j: int) -> bool {
    let r = sq_row(o);
    let c = sq_col(o);
    if j == 0 {
        r <= 5 && c <= 6
    } else if j == 1 {
        r <= 5 && c >= 1
    } else if j == 2 {
        r >= 2 && c <= 6
    } else if j == 3 {
        r >= 2 && c >= 1
    } else if j == 4 {
        r <= 6 && c <= 5
    } else if j == 5 {
        r <= 6 && c >= 2
    } else if j == 6 {
        r >= 1 && c <= 5
    } else {
        r >= 1 && c >= 2
    }
}

/// A guarded knight offset is a knight move onto a free square, and every
/// knight move arises from one of the eight offsets.
pub proof fn lemma_knight_cases(st: FenV, c: bool, o: int, t: int)
    requires
        in_board(o),
        st.board[o].color == c,
    ensures
        (exists|j: int|
            0 <= j < 8 && knight_target(o, j) == t && knight_guard(o, j) && target_free(
                st,
                t,
                c,
            )) <==> knight_move_ok(st, o, t),
{
    lemma_rowcol(o);
    if exists|j: int|
        0 <= j < 8 && knight_target(o, j) == t && knight_guard(o, j) && target_free(st, t, c) {
        let j = choose|j: int|
            0 <= j < 8 && knight_target(o, j) == t && knight_guard(o, j) && target_free(st, t, c);
        let dr: int = if j == 0 || j == 1 {
            2
        } else if j == 2 || j == 3 {
            -2
        } else if j == 4 || j == 5 {
            1
        } else {
            -1
        };
        let dc: int = if j == 0 || j == 2 {
            1
        } else if j == 1 || j == 3 {
            -1
        } else if j == 4 || j == 6 {
            2
        } else {
            -2
        };
        lemma_sq_of_rowcol(sq_row(o) + dr, sq_col(o) + dc);
        assert(t == 8 * (sq_row(o) + dr) + (sq_col(o) + dc));
    }
    if knight_move_ok(st, o, t) {
        lemma_rowcol(t);
        let dr = sq_row(t) - sq_row(o);
        let dc = sq_col(t) - sq_col(o);
        assert(t == o + 8 * dr + dc);
        if dr == 2 && dc == 1 {
            assert(knight_target(o, 0) == t && knight_guard(o, 0));
        } else if dr == 2 && dc == -1 {
            assert(knight_target(o, 1) == t && knight_guard(o, 1));
        } else if dr == -2 && dc == 1 {
            assert(knight_target(o, 2) == t && knight_guard(o, 2));
        } else if dr == -2 && dc == -1 {
            assert(knight_target(o, 3) == t && knight_guard(o, 3));
        } else if dr == 1 && dc == 2 {
            assert(knight_target(o, 4) == t && knight_guard(o, 4));
        } else if dr == 1 && dc == -2 {
            assert(knight_target(o, 5) == t && knight_guard(o, 5));
        } else if dr == -1 && dc == 2 {
            assert(knight_target(o, 6) == t && knight_guard(o, 6));
        } else {
            assert(knight_target(o, 7) == t && knight_guard(o, 7));
        }
    }
}

/// Appends the two-square castling king moves from origin `i`, as
/// `castle_move_ok` describes.
pub fn gen_castle_moves(st: &ParsedFEN, i: usize, out: &mut Vec<(u8, u8)>)
    requires
        st@.wf(),
        i < 64,
        st@.board[i as int].kind == PieceKind::King,
    ensures
        forall|m: (u8, u8)|
            #[trigger] final(out)@.contains(m) <==> (old(out)@.contains(m) || (m.0 == i as u8
                && castle_move_ok(st@, i as int, m.1 as int))),
{
    let c = st.board[i].color;
    proof {
        lemma_rowcol(i as int);
    }
    let row = i / 8;
    let col = i % 8;
    let home: usize = if c {
        7
    } else {
        0
    };
    if col != 4 || row != home {
        return ;
    }
    let ks = if c {
        st.castle.dark_kingside
    } else {
        st.castle.light_kingside
    };
    if ks && st.board[i + 1].kind == PieceKind::Vacant && st.board[i + 2].kind
        == PieceKind::Vacant {
        let ghost pre = out@;
        out.push((i as u8, (i + 2) as u8));
        proof {
            lemma_push_contains(pre, (i as u8, (i + 2) as u8));
        }
    }
    let qs = if c {
        st.castle.dark_queenside
    } else {
        st.castle.light_queenside
    };
    if qs && st.board[i - 1].kind == PieceKind::Vacant && st.board[i - 2].kind == PieceKind::Vacant
        && st.board[i - 3].kind == PieceKind::Vacant {
        let ghost pre = out@;
        out.push((i as u8, (i - 2) as u8));
        proof {
            lemma_push_contains(pre, (i as u8, (i - 2) as u8));
        }
    }
}

} // verus!
