//! Laws of the library, stated and proved over the specification functions:
//! the descriptor round trip (serializing a parsed descriptor is a fixed point
//! of parse-then-serialize), the blocking behavior of sliding-move rays, and
//! the board confinement of knight moves.

use vstd::prelude::*;
use crate::fen::{
    CastleRights, FenV, placement_prefix, rank_chars, rank_pieces, rle_from, row_seq,
    spec_board_of_placement, spec_castle_chars, spec_fen_chars, spec_parse_castle, spec_parse_fen,
    wf_descriptor, wf_placement, lemma_rank_pieces_concat,
};
use crate::moves::{dir_ok, is_empty_sq, move_ok, knight_jump, ray_move_ok, lemma_ray_props};
use crate::piece::{Piece, PieceKind, char_of_piece, empty_piece, piece_of_char};
use crate::square::{
    in_board, lemma_rowcol, lemma_square_roundtrip, spec_to_square, sq_col, sq_row,
};
use crate::text::{
    digit_val, is_digit_char, lemma_concat_contains, lemma_dec_roundtrip,
    spec_dec, spec_parse_dec, spec_split, lemma_split_sep_concat,
};

verus! {

/// A piece as the codec preserves it: a vacant square loses its meaningless
/// side and moved bits, an occupied one keeps kind and side but reads back as
/// never having moved.
pub open spec fn norm_piece(p: Piece) -> Piece {
    if p.kind == PieceKind::Vacant {
        empty_piece()
    } else {
        Piece { kind: p.kind, color: p.color, moved: false }
    }
}

pub open spec fn norm_board(b: Seq<Piece>) -> Seq<Piece> {
    Seq::new(b.len(), |i: int| norm_piece(b[i]))
}

/// A state as the codec preserves it.
pub open spec fn norm_state(st: FenV) -> FenV {
    FenV { board: norm_board(st.board), ..st }
}

/// The characters a placement field may hold: empty-run digits and piece
/// letters; never a space and never the rank separator.
pub open spec fn placement_sym(c: char) -> bool {
    ||| (is_digit_char(c) && 1 <= digit_val(c) && digit_val(c) <= 8)
    ||| c == 'p' || c == 'P' || c == 'n' || c == 'N' || c == 'b' || c == 'B' || c == 'r' || c == 'R'
        || c == 'q' || c == 'Q' || c == 'k' || c == 'K'
}

/// Every character a rank's run-length encoding emits is a placement symbol.
pub proof fn lemma_rle_syms(ps: Seq<Piece>, pending: int)
    requires
        0 <= pending,
        pending + ps.len() <= 8,
    ensures
        forall|j: int|
            0 <= j < rle_from(ps, pending).len() ==> placement_sym(#[trigger] rle_from(
                ps,
                pending,
            )[j]),
    decreases ps.len(),
{
    if ps.len() == 0 {
        if pending > 0 {
            assert(placement_sym(crate::text::digit_char(pending)));
        }
    } else if ps[0].kind == PieceKind::Vacant {
        lemma_rle_syms(ps.drop_first(), pending + 1);
        assert forall|j: int|
            0 <= j < rle_from(ps, pending).len() implies placement_sym(#[trigger] rle_from(
            ps,
            pending,
        )[j]) by {
            assert(rle_from(ps, pending) == rle_from(ps.drop_first(), pending + 1));
            assert(placement_sym(rle_from(ps.drop_first(), pending + 1)[j]));
        }
    } else {
        lemma_rle_syms(ps.drop_first(), 0);
        let lead: Seq<char> = if pending > 0 {
            seq![crate::text::digit_char(pending)]
        } else {
            Seq::<char>::empty()
        };
        let rest = rle_from(ps.drop_first(), 0);
        assert(rle_from(ps, pending) == lead + seq![char_of_piece(ps[0])] + rest);
        if pending > 0 {
            assert(placement_sym(crate::text::digit_char(pending)));
        }
        assert(placement_sym(char_of_piece(ps[0])));
        assert forall|j: int|
            0 <= j < rle_from(ps, pending).len() implies placement_sym(#[trigger] rle_from(
            ps,
            pending,
        )[j]) by {
            let s = lead + seq![char_of_piece(ps[0])] + rest;
            if j < lead.len() {
                assert(s[j] == lead[0]);
            } else if j == lead.len() {
                assert(s[j] == char_of_piece(ps[0]));
            } else {
                assert(s[j] == rest[j - lead.len() - 1]);
            }
        }
    }
}

/// Splitting a separator-free sequence yields that sequence alone.
pub proof fn lemma_split_no_sep(s: Seq<char>, sep: char)
    requires
        forall|j: int| 0 <= j < s.len() ==> s[j] != sep,
    ensures
        spec_split(s, sep) =~~= seq![s],
    decreases s.len(),
{
    if s.len() != 0 {
        lemma_split_no_sep(s.drop_first(), sep);
        assert(seq![s[0]] + s.drop_first() =~= s);
    }
}

/// Reading a rank's run-length encoding with `pending` empties carried in
/// yields those empties followed by the rank's squares, normalized.
pub proof fn lemma_rank_rle_roundtrip(ps: Seq<Piece>, pending: int)
    requires
        0 <= pending,
        pending + ps.len() <= 8,
    ensures
        rank_pieces(rle_from(ps, pending)) =~= Seq::new(
            (pending + ps.len()) as nat,
            |j: int|
                if j < pending {
                    empty_piece()
                } else {
                    norm_piece(ps[j - pending])
                },
        ),
    decreases ps.len(),
{
    if ps.len() == 0 {
        if pending > 0 {
            assert(is_digit_char(crate::text::digit_char(pending)) && digit_val(
                crate::text::digit_char(pending),
            ) == pending);
            assert(seq![crate::text::digit_char(pending)].drop_first()
                =~= Seq::<char>::empty());
            assert(rank_pieces(Seq::<char>::empty()) == Seq::<Piece>::empty());
        } else {
            assert(rank_pieces(Seq::<char>::empty()) == Seq::<Piece>::empty());
        }
    } else if ps[0].kind == PieceKind::Vacant {
        lemma_rank_rle_roundtrip(ps.drop_first(), pending + 1);
    } else {
        lemma_rank_rle_roundtrip(ps.drop_first(), 0);
        let c = char_of_piece(ps[0]);
        let lead: Seq<char> = if pending > 0 {
            seq![crate::text::digit_char(pending)]
        } else {
            Seq::<char>::empty()
        };
        assert(rle_from(ps, pending) == lead + seq![c] + rle_from(ps.drop_first(), 0));
        lemma_rank_pieces_concat(lead + seq![c], rle_from(ps.drop_first(), 0));
        lemma_rank_pieces_concat(lead, seq![c]);
        assert(!is_digit_char(c));
        assert(seq![c].drop_first() =~= Seq::<char>::empty());
        assert(rank_pieces(Seq::<char>::empty()) == Seq::<Piece>::empty());
        assert(rank_pieces(seq![c]) =~= seq![piece_of_char(c)]);
        assert(piece_of_char(c) == norm_piece(ps[0]));
        if pending > 0 {
            assert(is_digit_char(crate::text::digit_char(pending)) && digit_val(
                crate::text::digit_char(pending),
            ) == pending);
            assert(seq![crate::text::digit_char(pending)].drop_first()
                =~= Seq::<char>::empty());
            assert(rank_pieces(lead) =~= Seq::new(
                pending as nat,
                |k: int| empty_piece(),
            ));
        } else {
            assert(rank_pieces(lead) =~= Seq::<Piece>::empty());
        }
    }
}

/// One rank's encoding holds neither a space nor the rank separator.
proof fn lemma_rank_no_sep(b: Seq<Piece>, r: int)
    requires
        b.len() == 64,
        0 <= r < 8,
    ensures
        forall|j: int|
            0 <= j < rank_chars(b, r).len() ==> (#[trigger] rank_chars(b, r)[j]) != '/',
        forall|j: int|
            0 <= j < rank_chars(b, r).len() ==> (#[trigger] rank_chars(b, r)[j]) != ' ',
{
    lemma_rle_syms(row_seq(b, r), 0);
    assert forall|j: int|
        0 <= j < rank_chars(b, r).len() implies (#[trigger] rank_chars(b, r)[j]) != '/'
        && rank_chars(b, r)[j] != ' ' by {
        assert(placement_sym(rank_chars(b, r)[j]));
    }
}

/// The canonical placement field splits back into its eight rank encodings.
pub proof fn lemma_split_placement(b: Seq<Piece>)
    requires
        b.len() == 64,
    ensures
        spec_split(placement_prefix(b, 8), '/') =~~= seq![
            rank_chars(b, 7),
            rank_chars(b, 6),
            rank_chars(b, 5),
            rank_chars(b, 4),
            rank_chars(b, 3),
            rank_chars(b, 2),
            rank_chars(b, 1),
            rank_chars(b, 0),
        ],
{
    let r7 = rank_chars(b, 7);
    let r6 = rank_chars(b, 6);
    let r5 = rank_chars(b, 5);
    let r4 = rank_chars(b, 4);
    let r3 = rank_chars(b, 3);
    let r2 = rank_chars(b, 2);
    let r1 = rank_chars(b, 1);
    let r0 = rank_chars(b, 0);
    lemma_rank_no_sep(b, 7);
    lemma_rank_no_sep(b, 6);
    lemma_rank_no_sep(b, 5);
    lemma_rank_no_sep(b, 4);
    lemma_rank_no_sep(b, 3);
    lemma_rank_no_sep(b, 2);
    lemma_rank_no_sep(b, 1);
    lemma_rank_no_sep(b, 0);
    let sep = seq!['/'];
    let t0 = r0;
    let t1 = r1 + sep + t0;
    let t2 = r2 + sep + t1;
    let t3 = r3 + sep + t2;
    let t4 = r4 + sep + t3;
    let t5 = r5 + sep + t4;
    let t6 = r6 + sep + t5;
    let t7 = r7 + sep + t6;
    assert(placement_prefix(b, 0) == Seq::<char>::empty());
    assert(placement_prefix(b, 1) =~= r7 + sep);
    assert(placement_prefix(b, 2) =~= placement_prefix(b, 1) + r6 + sep);
    assert(placement_prefix(b, 3) =~= placement_prefix(b, 2) + r5 + sep);
    assert(placement_prefix(b, 4) =~= placement_prefix(b, 3) + r4 + sep);
    assert(placement_prefix(b, 5) =~= placement_prefix(b, 4) + r3 + sep);
    assert(placement_prefix(b, 6) =~= placement_prefix(b, 5) + r2 + sep);
    assert(placement_prefix(b, 7) =~= placement_prefix(b, 6) + r1 + sep);
    assert(placement_prefix(b, 8) =~= placement_prefix(b, 7) + r0);
    assert(placement_prefix(b, 8) =~= t7);
    assert(!r7.contains('/') && !r6.contains('/') && !r5.contains('/') && !r4.contains('/')
        && !r3.contains('/') && !r2.contains('/') && !r1.contains('/') && !r0.contains('/')) by {
        if r7.contains('/') {
            let j = choose|j: int| 0 <= j < r7.len() && r7[j] == '/';
        }
        if r6.contains('/') {
            let j = choose|j: int| 0 <= j < r6.len() && r6[j] == '/';
        }
        if r5.contains('/') {
            let j = choose|j: int| 0 <= j < r5.len() && r5[j] == '/';
        }
        if r4.contains('/') {
            let j = choose|j: int| 0 <= j < r4.len() && r4[j] == '/';
        }
        if r3.contains('/') {
            let j = choose|j: int| 0 <= j < r3.len() && r3[j] == '/';
        }
        if r2.contains('/') {
            let j = choose|j: int| 0 <= j < r2.len() && r2[j] == '/';
        }
        if r1.contains('/') {
            let j = choose|j: int| 0 <= j < r1.len() && r1[j] == '/';
        }
        if r0.contains('/') {
            let j = choose|j: int| 0 <= j < r0.len() && r0[j] == '/';
        }
    }
    lemma_split_sep_concat(r7, t6, '/');
    lemma_split_sep_concat(r6, t5, '/');
    lemma_split_sep_concat(r5, t4, '/');
    lemma_split_sep_concat(r4, t3, '/');
    lemma_split_sep_concat(r3, t2, '/');
    lemma_split_sep_concat(r2, t1, '/');
    lemma_split_sep_concat(r1, t0, '/');
    assert forall|j: int| 0 <= j < r0.len() implies r0[j] != '/' by {}
    lemma_split_no_sep(r0, '/');
}

/// Writing a set of castling rights and reading the field back yields the same
/// rights, and the field is non-empty and space-free.
pub proof fn lemma_castle_roundtrip(cr: CastleRights)
    ensures
        spec_parse_castle(spec_castle_chars(cr)) == cr,
        spec_castle_chars(cr).len() >= 1,
        forall|j: int|
            0 <= j < spec_castle_chars(cr).len() ==> (#[trigger] spec_castle_chars(cr)[j]) != ' ',
{
    if !cr.any() {
    } else {
        let a: Seq<char> = if cr.light_kingside {
            seq!['K']
        } else {
            Seq::<char>::empty()
        };
        let b: Seq<char> = if cr.light_queenside {
            seq!['Q']
        } else {
            Seq::<char>::empty()
        };
        let c: Seq<char> = if cr.dark_kingside {
            seq!['k']
        } else {
            Seq::<char>::empty()
        };
        let d: Seq<char> = if cr.dark_queenside {
            seq!['q']
        } else {
            Seq::<char>::empty()
        };
        let s = spec_castle_chars(cr);
        assert(s == a + b + c + d);
        lemma_concat_contains(a + b + c, d);
        lemma_concat_contains(a + b, c);
        lemma_concat_contains(a, b);
        assert(a.contains('K') == cr.light_kingside) by {
            if cr.light_kingside {
                assert(a[0] == 'K');
            }
        }
        assert(b.contains('Q') == cr.light_queenside) by {
            if cr.light_queenside {
                assert(b[0] == 'Q');
            }
        }
        assert(c.contains('k') == cr.dark_kingside) by {
            if cr.dark_kingside {
                assert(c[0] == 'k');
            }
        }
        assert(d.contains('q') == cr.dark_queenside) by {
            if cr.dark_queenside {
                assert(d[0] == 'q');
            }
        }
        assert(!a.contains('Q') && !a.contains('k') && !a.contains('q') && !a.contains('-')
            && !a.contains(' '));
        assert(!b.contains('K') && !b.contains('k') && !b.contains('q') && !b.contains('-')
            && !b.contains(' '));
        assert(!c.contains('K') && !c.contains('Q') && !c.contains('q') && !c.contains('-')
            && !c.contains(' '));
        assert(!d.contains('K') && !d.contains('Q') && !d.contains('k') && !d.contains('-')
            && !d.contains(' '));
        assert(s.len() >= 1);
        assert(s[0] != '-') by {
            assert(s.contains(s[0]));
            if s[0] == '-' {
                assert(a.contains('-') || b.contains('-') || c.contains('-') || d.contains('-'));
            }
        }
        assert forall|j: int| 0 <= j < s.len() implies s[j] != ' ' by {
            assert(s.contains(s[j]));
            if s[j] == ' ' {
                assert(a.contains(' ') || b.contains(' ') || c.contains(' ') || d.contains(' '));
            }
        }
    }
}

/// The run-length encoding of a rank reads only kinds and, on occupied
/// squares, sides: normalizing the pieces does not change it.
pub proof fn lemma_rle_norm(a: Seq<Piece>, b: Seq<Piece>, pending: int)
    requires
        a.len() == b.len(),
        forall|i: int|
            0 <= i < a.len() ==> ((#[trigger] a[i]).kind == b[i].kind && (a[i].kind
                != PieceKind::Vacant ==> a[i].color == b[i].color)),
    ensures
        rle_from(a, pending) == rle_from(b, pending),
    decreases a.len(),
{
    if a.len() != 0 {
        assert(a.drop_first().len() == b.drop_first().len());
        assert forall|i: int| 0 <= i < a.drop_first().len() implies ((#[trigger] a.drop_first()[i]).kind
            == b.drop_first()[i].kind && (a.drop_first()[i].kind != PieceKind::Vacant
            ==> a.drop_first()[i].color == b.drop_first()[i].color)) by {
            assert(a[i + 1].kind == b[i + 1].kind && (a[i + 1].kind != PieceKind::Vacant ==> a[i
                + 1].color == b[i + 1].color));
        }
        if a[0].kind == PieceKind::Vacant {
            lemma_rle_norm(a.drop_first(), b.drop_first(), pending + 1);
        } else {
            lemma_rle_norm(a.drop_first(), b.drop_first(), 0);
            assert(char_of_piece(a[0]) == char_of_piece(b[0]));
        }
    }
}

/// Normalizing a board does not change its canonical descriptor.
pub proof fn lemma_fen_chars_norm(st: FenV)
    requires
        st.board.len() == 64,
    ensures
        spec_fen_chars(norm_state(st)) == spec_fen_chars(st),
{
    let n = norm_state(st);
    assert forall|g: int| 0 <= g <= 8 implies placement_prefix(n.board, g) == placement_prefix(
        st.board,
        g,
    ) by {
        lemma_placement_prefix_norm(st, g);
    }
    assert(spec_fen_chars(n) == spec_fen_chars(st));
}

proof fn lemma_placement_prefix_norm(st: FenV, g: int)
    requires
        st.board.len() == 64,
        0 <= g <= 8,
    ensures
        placement_prefix(norm_board(st.board), g) == placement_prefix(st.board, g),
    decreases g,
{
    if g > 0 {
        lemma_placement_prefix_norm(st, g - 1);
        let r = 8 - g;
        assert(row_seq(norm_board(st.board), r).len() == row_seq(st.board, r).len());
        lemma_rle_norm(row_seq(norm_board(st.board), r), row_seq(st.board, r), 0);
        assert(rank_chars(norm_board(st.board), r) == rank_chars(st.board, r));
    }
}

/// Parsing the canonical descriptor of a structurally valid state recovers
/// the state, normalized; and that descriptor is well formed.
#[verifier::rlimit(100)]
#[verifier::spinoff_prover]
pub proof fn lemma_parse_of_serialize(st: FenV)
    requires
        st.wf(),
    ensures
        wf_descriptor(spec_fen_chars(st)),
        spec_parse_fen(spec_fen_chars(st)) =~~= norm_state(st),
{
    let e = spec_fen_chars(st);
    let pl = crate::fen::spec_placement_chars(st.board);
    let cf: Seq<char> = if st.color {
        seq!['b']
    } else {
        seq!['w']
    };
    let rf = spec_castle_chars(st.castle);
    let qf = spec_to_square(st.en_passant);
    let hf = spec_dec(st.halfmove_clock as int);
    let ff = spec_dec(st.fullmove_clock as int);
    let sp = seq![' '];

    // no field contains a space
    assert forall|j: int| 0 <= j < pl.len() implies pl[j] != ' ' by {
        lemma_placement_no_space(st.board, 8);
    }
    lemma_castle_roundtrip(st.castle);
    lemma_dec_roundtrip(st.halfmove_clock as int);
    lemma_dec_roundtrip(st.fullmove_clock as int);
    assert forall|j: int| 0 <= j < hf.len() implies hf[j] != ' ' by {
        assert(is_digit_char(hf[j]));
    }
    assert forall|j: int| 0 <= j < ff.len() implies ff[j] != ' ' by {
        assert(is_digit_char(ff[j]));
    }
    assert forall|j: int| 0 <= j < qf.len() implies qf[j] != ' ' by {
        if st.en_passant != 64 {
            lemma_rowcol(st.en_passant as int);
        }
    }
    assert(!pl.contains(' ')) by {
        if pl.contains(' ') {
            let j = choose|j: int| 0 <= j < pl.len() && pl[j] == ' ';
        }
    }
    assert(!cf.contains(' '));
    assert(!rf.contains(' ')) by {
        if rf.contains(' ') {
            let j = choose|j: int| 0 <= j < rf.len() && rf[j] == ' ';
        }
    }
    assert(!qf.contains(' ')) by {
        if qf.contains(' ') {
            let j = choose|j: int| 0 <= j < qf.len() && qf[j] == ' ';
        }
    }
    assert(!hf.contains(' ')) by {
        if hf.contains(' ') {
            let j = choose|j: int| 0 <= j < hf.len() && hf[j] == ' ';
        }
    }
    assert(!ff.contains(' ')) by {
        if ff.contains(' ') {
            let j = choose|j: int| 0 <= j < ff.len() && ff[j] == ' ';
        }
    }

    // the six fields split back out
    let tail4 = hf + sp + ff;
    let tail3 = qf + sp + tail4;
    let tail2 = rf + sp + tail3;
    let tail1 = cf + sp + tail2;
    assert(e =~= pl + sp + tail1);
    lemma_split_sep_concat(pl, tail1, ' ');
    lemma_split_sep_concat(cf, tail2, ' ');
    lemma_split_sep_concat(rf, tail3, ' ');
    lemma_split_sep_concat(qf, tail4, ' ');
    lemma_split_sep_concat(hf, ff, ' ');
    assert forall|j: int| 0 <= j < ff.len() implies ff[j] != ' ' by {}
    lemma_split_no_sep(ff, ' ');
    let fs = spec_split(e, ' ');
    assert(fs =~~= seq![pl, cf, rf, qf, hf, ff]);

    // the placement field parses back to the normalized board
    lemma_split_placement(st.board);
    let gs = spec_split(pl, '/');
    assert forall|g: int| 0 <= g < 8 implies rank_pieces(#[trigger] gs[g]).len() == 8
        && (forall|j: int|
        0 <= j < 8 ==> rank_pieces(gs[g])[j] == norm_piece(st.board[8 * (7 - g) + j])) by {
        lemma_rank_rle_roundtrip(row_seq(st.board, 7 - g), 0);
    }
    assert(wf_placement(pl));
    assert(wf_descriptor(e));
    assert(spec_board_of_placement(pl) =~= norm_board(st.board)) by {
        assert forall|i: int| 0 <= i < 64 implies spec_board_of_placement(pl)[i] == norm_piece(
            st.board[i],
        ) by {
            lemma_rowcol(i);
            let g = 7 - sq_row(i);
            assert(rank_pieces(gs[g])[sq_col(i)] == norm_piece(st.board[8 * (7 - g) + sq_col(i)]));
        }
    }

    // the remaining fields parse back unchanged
    assert((fs[1] == seq!['w']) == !st.color) by {
        assert(seq!['b'][0] == 'b' && seq!['w'][0] == 'w');
        if st.color {
            if cf == seq!['w'] {
                assert(cf[0] == 'w');
            }
        } else {
            assert(cf =~= seq!['w']);
        }
    }
    lemma_square_roundtrip(st.en_passant);
    assert(spec_parse_dec(hf, 255) == Some(st.halfmove_clock as int));
    assert(spec_parse_dec(ff, 65535) == Some(st.fullmove_clock as int));
    assert(spec_parse_fen(e) =~~= norm_state(st));
}

proof fn lemma_placement_no_space(b: Seq<Piece>, g: int)
    requires
        0 <= g <= 8,
        b.len() == 64,
    ensures
        forall|j: int|
            0 <= j < placement_prefix(b, g).len() ==> (#[trigger] placement_prefix(b, g)[j])
                != ' ',
    decreases g,
{
    if g > 0 {
        lemma_placement_no_space(b, g - 1);
        lemma_rle_syms(row_seq(b, 8 - g), 0);
        assert forall|j: int|
            0 <= j < placement_prefix(b, g).len() implies (#[trigger] placement_prefix(b, g)[j])
            != ' ' by {
            let pre = placement_prefix(b, g - 1);
            let rk = rank_chars(b, 8 - g);
            if j < pre.len() {
            } else if j < pre.len() + rk.len() {
                assert(placement_sym(rk[j - pre.len()]));
            }
        }
    }
}

/// THE ROUND TRIP: for every well-formed descriptor, the canonical descriptor
/// of its parse is a fixed point of parse-then-serialize.
pub proof fn lemma_serialize_parse_fixed_point(d: Seq<char>)
    requires
        wf_descriptor(d),
    ensures
        ({
            let e = spec_fen_chars(spec_parse_fen(d));
            &&& wf_descriptor(e)
            &&& spec_fen_chars(spec_parse_fen(e)) == e
        }),
{
    let st = spec_parse_fen(d);
    assert(st.wf()) by {
        crate::square::lemma_parse_square_le(spec_split(d, ' ')[3]);
    }
    lemma_parse_of_serialize(st);
    assert(norm_state(st).board.len() == 64);
    lemma_fen_chars_norm(st);
    assert(spec_fen_chars(spec_parse_fen(spec_fen_chars(st))) == spec_fen_chars(st)) by {
        assert(spec_parse_fen(spec_fen_chars(st)) == norm_state(st));
    }
}

/// The square `k` steps from `o` along direction `(dr, dc)`.
pub open spec fn ray_sq(o: int, dr: int, dc: int, k: nat) -> int
    decreases k,
{
    if k == 0 {
        o
    } else {
        ray_sq(o, dr, dc, (k - 1) as nat) + 8 * dr + dc
    }
}

proof fn lemma_ray_sq_shift(o: int, dr: int, dc: int, k: nat)
    requires
        k >= 1,
    ensures
        ray_sq(o, dr, dc, k) == ray_sq(o + 8 * dr + dc, dr, dc, (k - 1) as nat),
    decreases k,
{
    if k == 1 {
        assert(ray_sq(o, dr, dc, 0) == o);
        assert(ray_sq(o + 8 * dr + dc, dr, dc, 0) == o + 8 * dr + dc);
    } else {
        lemma_ray_sq_shift(o, dr, dc, (k - 1) as nat);
    }
}

proof fn lemma_ray_sq_monotone(o: int, dr: int, dc: int, k: nat)
    requires
        dir_ok(dr, dc),
        k >= 1,
    ensures
        8 * dr + dc > 0 ==> ray_sq(o, dr, dc, k) > o,
        8 * dr + dc < 0 ==> ray_sq(o, dr, dc, k) < o,
    decreases k,
{
    if k == 1 {
        assert(ray_sq(o, dr, dc, 0) == o);
    } else {
        lemma_ray_sq_monotone(o, dr, dc, (k - 1) as nat);
    }
}

/// SLIDING RAYS STOP AT THE FIRST OCCUPIED SQUARE: when a sliding move reaches
/// the target `k` steps out, every square strictly between origin and target
/// is empty, and the target, if occupied at all, holds an opposing piece. So
/// no generated sliding move lands beyond the first occupied square of its
/// ray, and a generated move onto an occupied square is a capture.
pub proof fn lemma_sliding_blocked(
    st: FenV,
    c: bool,
    o: int,
    dr: int,
    dc: int,
    t: int,
    k: nat,
    j: nat,
)
    requires
        ray_move_ok(st, c, o, dr, dc, t),
        ray_sq(o, dr, dc, k) == t,
        k >= 1,
        1 <= j < k,
    ensures
        is_empty_sq(st, ray_sq(o, dr, dc, j)),
        st.board[t].kind != PieceKind::Vacant ==> st.board[t].color != c,
    decreases k,
{
    lemma_ray_props(st, c, o, dr, dc, t);
    let n = o + 8 * dr + dc;
    if n == t {
        lemma_ray_sq_monotone(n, dr, dc, (k - 1) as nat);
        lemma_ray_sq_shift(o, dr, dc, k);
        assert(false);
    } else {
        lemma_ray_sq_shift(o, dr, dc, k);
        if j == 1 {
            assert(ray_sq(o, dr, dc, 0) == o);
            assert(ray_sq(o, dr, dc, 1) == n);
        } else {
            lemma_ray_sq_shift(o, dr, dc, j);
            lemma_sliding_blocked(st, c, n, dr, dc, t, (k - 1) as nat, (j - 1) as nat);
        }
    }
}

/// KNIGHT MOVES STAY ON THE BOARD: every generated knight move has an on-board
/// target whose rank and file offsets are (1, 2) or (2, 1) in magnitude, so no
/// target wraps across the 'a' or 'h' file edge.
pub proof fn lemma_knight_moves_on_board(st: FenV, o: int, t: int)
    requires
        move_ok(st, o, t),
        st.board[o].kind == PieceKind::Knight,
    ensures
        in_board(t),
        ({
            let dr = sq_row(t) - sq_row(o);
            let dc = sq_col(t) - sq_col(o);
            ||| ((dr == 2 || dr == -2) && (dc == 1 || dc == -1))
            ||| ((dr == 1 || dr == -1) && (dc == 2 || dc == -2))
        }),
{
    assert(knight_jump(o, t));
}

} // verus!
