//! The piece codec: one textual placement symbol to and from one board square's
//! occupant. Lowercase symbols belong to the dark side, uppercase to the light
//! side; a symbol outside the piece alphabet decodes to a vacant square, and a
//! vacant square encodes to a single space.

use vstd::prelude::*;

verus! {

/// The kind of occupant standing on a square; `Vacant` marks an empty square.
#[derive(Clone, Copy, PartialEq, Eq, Structural, Debug)]
pub enum PieceKind {
    Vacant,
    Pawn,
    Knight,
    Bishop,
    Rook,
    Queen,
    King,
}

/// One board square's occupant: its kind, its side (`false` = light,
/// `true` = dark), and whether it has moved since it was placed. The side and
/// the moved flag carry no meaning for a vacant square.
#[derive(Clone, Copy, PartialEq, Eq, Structural, Debug)]
pub struct Piece {
    pub kind: PieceKind,
    pub color: bool,
    pub moved: bool,
}

/// The occupant of an empty square.
pub open spec fn empty_piece() -> Piece {
    Piece { kind: PieceKind::Vacant, color: false, moved: false }
}

/// Whether `c` is an ASCII lowercase letter (code points 97 to 122), which
/// marks a dark-side symbol.
pub open spec fn char_is_dark(c: char) -> bool {
    97 <= (c as u32) && (c as u32) <= 122
}

/// The piece kind that a placement symbol denotes; symbols outside the piece
/// alphabet denote a vacant square.
pub open spec fn kind_of_char(c: char) -> PieceKind {
    if c == 'p' || c == 'P' {
        PieceKind::Pawn
    } else if c == 'n' || c == 'N' {
        PieceKind::Knight
    } else if c == 'b' || c == 'B' {
        PieceKind::Bishop
    } else if c == 'r' || c == 'R' {
        PieceKind::Rook
    } else if c == 'q' || c == 'Q' {
        PieceKind::Queen
    } else if c == 'k' || c == 'K' {
        PieceKind::King
    } else {
        PieceKind::Vacant
    }
}

/// The occupant denoted by one placement symbol: a freshly placed piece, never
/// marked as moved.
pub open spec fn piece_of_char(c: char) -> Piece {
    Piece { kind: kind_of_char(c), color: char_is_dark(c), moved: false }
}

/// The placement symbol that encodes a piece: case follows the side, a vacant
/// square encodes to a space.
pub open spec fn char_of_piece(p: Piece) -> char {
    match p.kind {
        PieceKind::Pawn => if p.color { 'p' } else { 'P' },
        PieceKind::Knight => if p.color { 'n' } else { 'N' },
        PieceKind::Bishop => if p.color { 'b' } else { 'B' },
        PieceKind::Rook => if p.color { 'r' } else { 'R' },
        PieceKind::Queen => if p.color { 'q' } else { 'Q' },
        PieceKind::King => if p.color { 'k' } else { 'K' },
        PieceKind::Vacant => ' ',
    }
}

impl Piece {
    /// Decodes one placement symbol into a square occupant.
    pub fn from(piece_char: &char) -> (r: Piece)
        ensures
            r == piece_of_char(*piece_char),
    {
        let c = *piece_char;
        let dark = (c as u32) >= 97 && (c as u32) <= 122;
        let kind = match c {
            'p' | 'P' => PieceKind::Pawn,
            'n' | 'N' => PieceKind::Knight,
            'b' | 'B' => PieceKind::Bishop,
            'r' | 'R' => PieceKind::Rook,
            'q' | 'Q' => PieceKind::Queen,
            'k' | 'K' => PieceKind::King,
            _ => PieceKind::Vacant,
        };
        Piece { kind, color: dark, moved: false }
    }

    /// The one-character symbol that encodes this occupant.
    pub fn symbol(&self) -> (c: char)
        ensures
            c == char_of_piece(*self),
    {
        match self.kind {
            PieceKind::Pawn => if self.color { 'p' } else { 'P' },
            PieceKind::Knight => if self.color { 'n' } else { 'N' },
            PieceKind::Bishop => if self.color { 'b' } else { 'B' },
            PieceKind::Rook => if self.color { 'r' } else { 'R' },
            PieceKind::Queen => if self.color { 'q' } else { 'Q' },
            PieceKind::King => if self.color { 'k' } else { 'K' },
            PieceKind::Vacant => ' ',
        }
    }

    /// Encodes this occupant back into its one-symbol textual form.
    pub fn to_string(&self) -> (r: String)
        ensures
            r@ == seq![char_of_piece(*self)],
    {
        let ch = self.symbol();
        let mut v: Vec<char> = Vec::new();
        v.push(ch);
        proof {
            assert(v@ =~= seq![char_of_piece(*self)]);
        }
        crate::text::string_from_chars(&v)
    }
}

} // verus!
