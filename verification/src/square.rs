//! The square indexer: algebraic coordinates ("e4") to and from a linear index
//! 0 to 63 (`index = rank * 8 + file`, rank 0 being the light side's back rank
//! and file 0 the 'a' file), with 64 as the sentinel for "no square". A
//! malformed coordinate reads as the sentinel rather than failing.

use vstd::prelude::*;
use vstd::string::StrSliceExecFns;

verus! {

/// The sentinel index meaning "no square".
pub const NO_SQUARE: u8 = 64;

pub open spec fn in_board(i: int) -> bool {
    0 <= i < 64
}

/// The rank (row) of a square index, 0 to 7.
pub open spec fn sq_row(i: int) -> int {
    i / 8
}

/// The file (column) of a square index, 0 to 7.
pub open spec fn sq_col(i: int) -> int {
    i % 8
}

pub proof fn lemma_rowcol(i: int)
    requires
        in_board(i),
    ensures
        0 <= sq_row(i) < 8,
        0 <= sq_col(i) < 8,
        i == 8 * sq_row(i) + sq_col(i),
{
}

/// A rank and file in range determine the index with that row and column.
pub proof fn lemma_sq_of_rowcol(r: int, c: int)
    requires
        0 <= r < 8,
        0 <= c < 8,
    ensures
        sq_row(8 * r + c) == r,
        sq_col(8 * r + c) == c,
        in_board(8 * r + c),
{
    vstd::arithmetic::div_mod::lemma_fundamental_div_mod_converse(8 * r + c, 8, r, c);
}

/// The file denoted by a coordinate's first character; letters outside
/// 'a' to 'h' denote file 0.
pub open spec fn file_of_char(c: char) -> int {
    if c == 'b' {
        1
    } else if c == 'c' {
        2
    } else if c == 'd' {
        3
    } else if c == 'e' {
        4
    } else if c == 'f' {
        5
    } else if c == 'g' {
        6
    } else if c == 'h' {
        7
    } else {
        0
    }
}

/// The coordinate letter of a file 0 to 7.
pub open spec fn file_char(c: int) -> char {
    if c == 1 {
        'b'
    } else if c == 2 {
        'c'
    } else if c == 3 {
        'd'
    } else if c == 4 {
        'e'
    } else if c == 5 {
        'f'
    } else if c == 6 {
        'g'
    } else if c == 7 {
        'h'
    } else {
        'a'
    }
}

/// Whether a coordinate's rank character is a digit '1' to '8'
/// (code points 49 to 56).
pub open spec fn rank_char_ok(c: char) -> bool {
    49 <= (c as u32) && (c as u32) <= 56
}

/// The rank denoted by a rank character, counted from 0.
pub open spec fn rank_of_char(c: char) -> int {
    (c as u32) - 49
}

/// The rank digit of a rank 0 to 7.
pub open spec fn rank_char(r: int) -> char {
    if r == 1 {
        '2'
    } else if r == 2 {
        '3'
    } else if r == 3 {
        '4'
    } else if r == 4 {
        '5'
    } else if r == 5 {
        '6'
    } else if r == 6 {
        '7'
    } else if r == 7 {
        '8'
    } else {
        '1'
    }
}

/// The index a coordinate text denotes: "-" and every malformed text (too
/// short, or a rank character outside '1' to '8') denote the sentinel; a file
/// letter outside 'a' to 'h' denotes file 0; characters past the second are
/// ignored.
pub open spec fn spec_parse_square(s: Seq<char>) -> u8 {
    if s.len() == 1 && s[0] == '-' {
        64u8
    } else if s.len() >= 2 && rank_char_ok(s[1]) {
        (8 * rank_of_char(s[1]) + file_of_char(s[0])) as u8
    } else {
        64u8
    }
}

/// The coordinate text of an index: the sentinel renders as "-".
pub open spec fn spec_to_square(i: u8) -> Seq<char> {
    if i == 64 {
        seq!['-']
    } else {
        seq![file_char(sq_col(i as int)), rank_char(sq_row(i as int))]
    }
}

pub proof fn lemma_parse_square_le(s: Seq<char>)
    ensures
        spec_parse_square(s) <= 64,
{
}

/// Formatting an index and reading it back yields the index.
pub proof fn lemma_square_roundtrip(i: u8)
    requires
        i <= 64,
    ensures
        spec_parse_square(spec_to_square(i)) == i,
{
    if i < 64 {
        lemma_rowcol(i as int);
    }
}

/// Reads a two-character algebraic coordinate, or "-" for "no square".
/// Malformed text degrades to the sentinel.
pub fn parse_square(square: &str) -> (r: u8)
    ensures
        r == spec_parse_square(square@),
        r <= 64,
{
    let v = crate::text::chars_of(square);
    parse_square_chars(&v)
}

/// `parse_square` on an already collected character sequence.
pub fn parse_square_chars(v: &Vec<char>) -> (r: u8)
    ensures
        r == spec_parse_square(v@),
        r <= 64,
{
    if v.len() == 1 && v[0] == '-' {
        return 64;
    }
    if v.len() < 2 {
        return 64;
    }
    let c0 = v[0];
    let c1 = v[1];
    let cu = c1 as u32;
    if cu < 49 || cu > 56 {
        return 64;
    }
    let rank: u8 = (cu - 49) as u8;
    let file: u8 = match c0 {
        'b' => 1,
        'c' => 2,
        'd' => 3,
        'e' => 4,
        'f' => 5,
        'g' => 6,
        'h' => 7,
        _ => 0,
    };
    8 * rank + file
}

/// Appends the coordinate text of an index 0 to 63, or of the sentinel 64.
pub fn push_square(out: &mut Vec<char>, square: u8)
    requires
        square <= 64,
    ensures
        final(out)@ == old(out)@ + spec_to_square(square),
{
    if square == 64 {
        out.push('-');
        proof {
            assert(out@ =~= old(out)@ + spec_to_square(square));
        }
    } else {
        let col: u8 = square % 8;
        let row: u8 = square / 8;
        let fc = match col {
            1 => 'b',
            2 => 'c',
            3 => 'd',
            4 => 'e',
            5 => 'f',
            6 => 'g',
            7 => 'h',
            _ => 'a',
        };
        let rc = match row {
            1 => '2',
            2 => '3',
            3 => '4',
            4 => '5',
            5 => '6',
            6 => '7',
            7 => '8',
            _ => '1',
        };
        out.push(fc);
        out.push(rc);
        proof {
            assert(out@ =~= old(out)@ + spec_to_square(square));
        }
    }
}

/// Formats an index 0 to 63, or the sentinel 64, as coordinate text.
pub fn to_square(square: &u8) -> (r: String)
    requires
        *square <= 64,
    ensures
        r@ == spec_to_square(*square),
{
    let mut v: Vec<char> = Vec::new();
    push_square(&mut v, *square);
    proof {
        assert(v@ =~= spec_to_square(*square));
    }
    crate::text::string_from_chars(&v)
}

} // verus!
