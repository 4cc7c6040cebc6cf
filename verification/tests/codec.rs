use tsmchess::fen::{ParsedFEN, START_FEN};
use tsmchess::fen::descriptor_well_formed;
use tsmchess::piece::{Piece, PieceKind};
use tsmchess::square::{parse_square, to_square};

#[test]
fn piece_decodes_symbols() {
    let p = Piece::from(&'q');
    assert_eq!(p.kind, PieceKind::Queen);
    assert!(p.color);
    assert!(!p.moved);
    let n = Piece::from(&'N');
    assert_eq!(n.kind, PieceKind::Knight);
    assert!(!n.color);
    let junk = Piece::from(&'x');
    assert_eq!(junk.kind, PieceKind::Vacant);
}

#[test]
fn piece_encodes_symbols() {
    assert_eq!(Piece::from(&'q').to_string(), "q");
    assert_eq!(Piece::from(&'K').to_string(), "K");
    assert_eq!(Piece::from(&'P').to_string(), "P");
    let vacant = Piece { kind: PieceKind::Vacant, color: false, moved: false };
    assert_eq!(vacant.to_string(), " ");
}

#[test]
fn square_parsing() {
    assert_eq!(parse_square("-"), 64);
    assert_eq!(parse_square("a1"), 0);
    assert_eq!(parse_square("e4"), 28);
    assert_eq!(parse_square("h8"), 63);
    assert_eq!(parse_square("e3"), 20);
    // malformed rank digits degrade to the sentinel
    assert_eq!(parse_square("e9"), 64);
    assert_eq!(parse_square("e0"), 64);
    assert_eq!(parse_square("e"), 64);
    assert_eq!(parse_square(""), 64);
    // an unknown file letter reads as file 0
    assert_eq!(parse_square("z4"), 24);
}

#[test]
fn square_formatting() {
    assert_eq!(to_square(&64), "-");
    assert_eq!(to_square(&0), "a1");
    assert_eq!(to_square(&28), "e4");
    assert_eq!(to_square(&63), "h8");
}

#[test]
fn square_roundtrip_all() {
    for i in 0u8..=64u8 {
        assert_eq!(parse_square(&to_square(&i)), i);
    }
}

#[test]
fn castle_field_roundtrip() {
    let all = ParsedFEN::parse_castle_text("KQkq");
    assert!(all.light_kingside && all.light_queenside && all.dark_kingside && all.dark_queenside);
    assert_eq!(ParsedFEN::parse_castle_value(&all), "KQkq");
    let none = ParsedFEN::parse_castle_text("-");
    assert!(!none.light_kingside && !none.light_queenside && !none.dark_kingside
        && !none.dark_queenside);
    assert_eq!(ParsedFEN::parse_castle_value(&none), "-");
    let mixed = ParsedFEN::parse_castle_text("Kq");
    assert!(mixed.light_kingside && !mixed.light_queenside && !mixed.dark_kingside
        && mixed.dark_queenside);
    assert_eq!(ParsedFEN::parse_castle_value(&mixed), "Kq");
    // unrecognized characters are ignored
    let odd = ParsedFEN::parse_castle_text("Kxq");
    assert!(odd.light_kingside && odd.dark_queenside && !odd.light_queenside);
}

#[test]
fn starting_position_roundtrip() {
    let state = ParsedFEN::from(START_FEN);
    assert_eq!(state.to_string(), START_FEN);
    let fresh = ParsedFEN::new();
    assert_eq!(fresh.to_string(), START_FEN);
}

#[test]
fn noncanonical_runs_serialize_canonically() {
    // the same position written with split empty runs
    let odd = "rnbqkbnr/pppppppp/44/8/8/62/PPPPPPPP/RNBQKBNR w KQkq - 0 1";
    let state = ParsedFEN::from(odd);
    assert_eq!(state.to_string(), START_FEN);
}

#[test]
fn serialize_of_parse_is_fixed_point() {
    let inputs = [
        START_FEN,
        "rnbqkbnr/pppppppp/44/8/8/62/PPPPPPPP/RNBQKBNR w KQkq - 0 1",
        "8/8/8/8/8/8/8/8 w - - 0 1",
        "k7/8/3r4/3pP3/8/8/8/K7 w - d6 0 1",
        // permissive fields: garbage side, clocks and en passant
        "8/8/8/8/8/8/8/8 x KQx zz 99x yy",
    ];
    for d in inputs {
        let once = ParsedFEN::from(d).to_string();
        let twice = ParsedFEN::from(&once).to_string();
        assert_eq!(twice, once);
    }
}

#[test]
fn permissive_fields_take_defaults() {
    let state = ParsedFEN::from("8/8/8/8/8/8/8/8 x - xx yy zz");
    assert!(state.color); // anything but "w" means dark to move
    assert_eq!(state.en_passant, 64);
    assert_eq!(state.halfmove_clock, 0);
    assert_eq!(state.fullmove_clock, 1);
    for sq in &state.board {
        assert_eq!(sq.kind, PieceKind::Vacant);
    }
}

#[test]
fn clock_fields_parse_and_serialize() {
    let state = ParsedFEN::from("8/8/8/8/8/8/8/8 b KQkq e3 255 65535");
    assert_eq!(state.halfmove_clock, 255);
    assert_eq!(state.fullmove_clock, 65535);
    assert_eq!(state.en_passant, 20);
    assert_eq!(state.to_string(), "8/8/8/8/8/8/8/8 b KQkq e3 255 65535");
    // out-of-range numbers degrade to the defaults
    let wide = ParsedFEN::from("8/8/8/8/8/8/8/8 b - - 256 65536");
    assert_eq!(wide.halfmove_clock, 0);
    assert_eq!(wide.fullmove_clock, 1);
}

#[test]
fn well_formedness_check() {
    assert!(descriptor_well_formed(START_FEN));
    assert!(descriptor_well_formed("8/8/8/8/8/8/8/8 w - - 0 1"));
    assert!(!descriptor_well_formed("abc"));
    assert!(!descriptor_well_formed(""));
    // a nine-wide rank is refused
    assert!(!descriptor_well_formed("ppppppppp/8/8/8/8/8/8/8 w - - 0 1"));
    // a seven-wide rank is refused
    assert!(!descriptor_well_formed("ppppppp/8/8/8/8/8/8/8 w - - 0 1"));
    // nine rank groups are refused
    assert!(!descriptor_well_formed("8/8/8/8/8/8/8/8/8 w - - 0 1"));
    // five fields are refused
    assert!(!descriptor_well_formed("8/8/8/8/8/8/8/8 w - - 0"));
}
