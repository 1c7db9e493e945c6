use cgn::builder::ParseError;
use cgn::codec::{
    compress_pgn_data, compress_pgn_str, decode_struct, decompress_pgn_data, decompress_pgn_str,
    encode_struct, CodecError,
};
use cgn::pgn_data::{PgnData, PgnHeaders, SanPlusWrapper};

/// Example PGN string.
const PGN_STR_EXAMPLE: &str = r#"[Event "Titled Tuesday Blitz January 03 Early 2023"]
[Site ""]
[Date "2023.01.03"]
[Round "?"]
[White "Magnus Carlsen"]
[Black "Samvel Ter-Sahakyan"]
[Result "1-0"]

1. a4 Nf6 2. d4 d5 3. Nf3 Bf5 4. Nh4 Be4 5. f3 Bg6 6. Nc3 c5 7. e4 cxd4 8. Nxg6
hxg6 9. Qxd4 Nc6 10. Qf2 d4 11. Nd1 e5 12. Bc4 Rc8 13. Qe2 Bb4+ 14. Kf1 Na5 15.
Bd3 O-O 16. Nf2 Qb6 17. h4 Nh5 18. Rh3 Qf6 19. g4 Nf4 20. Bxf4 Qxf4 21. h5 g5
22. Rd1 a6 23. Kg2 Rc7 24. Rhh1 Rfc8 25. Nh3 Qf6 26. Ra1 Nc6 27. Rhc1 Bd6 28.
Qd2 Bb4 29. c3 Be7 30. Nf2 dxc3 31. bxc3 Nd8 32. Bb1 Ne6 33. Nh3 Bc5 34. Ba2 Rd8
35. Qe2 Nf4+ 36. Nxf4 gxf4 37. Kh3 g6 38. Rd1 Rcd7 39. Rxd7 Rxd7 40. Rd1 Bf2 41.
Bxf7+ Kf8 42. Qxf2 Rxd1 43. Bxg6 Qd6 44. g5 Qd3 45. Qc5+ Qd6 46. Qc8+ Kg7 47.
Qxb7+ Kf8 48. Qf7# 1-0"#;

/// Example PGN string with additional header.
const PGN_STR_EXAMPLE_EXTRA_HEADER: &str = r#"[Event "Titled Tuesday Blitz January 03 Early 2023"]
[Site ""]
[Date "2023.01.03"]
[Round "?"]
[White "Magnus Carlsen"]
[Black "Samvel Ter-Sahakyan"]
[Result "1-0"]
[Extra "FOOBAR"]

1. a4 Nf6 2. d4 d5 3. Nf3 Bf5 4. Nh4 Be4 5. f3 Bg6 6. Nc3 c5 7. e4 cxd4 8. Nxg6
hxg6 9. Qxd4 Nc6 10. Qf2 d4 11. Nd1 e5 12. Bc4 Rc8 13. Qe2 Bb4+ 14. Kf1 Na5 15.
Bd3 O-O 16. Nf2 Qb6 17. h4 Nh5 18. Rh3 Qf6 19. g4 Nf4 20. Bxf4 Qxf4 21. h5 g5
22. Rd1 a6 23. Kg2 Rc7 24. Rhh1 Rfc8 25. Nh3 Qf6 26. Ra1 Nc6 27. Rhc1 Bd6 28.
Qd2 Bb4 29. c3 Be7 30. Nf2 dxc3 31. bxc3 Nd8 32. Bb1 Ne6 33. Nh3 Bc5 34. Ba2 Rd8
35. Qe2 Nf4+ 36. Nxf4 gxf4 37. Kh3 g6 38. Rd1 Rcd7 39. Rxd7 Rxd7 40. Rd1 Bf2 41.
Bxf7+ Kf8 42. Qxf2 Rxd1 43. Bxg6 Qd6 44. g5 Qd3 45. Qc5+ Qd6 46. Qc8+ Kg7 47.
Qxb7+ Kf8 48. Qf7# 1-0"#;

#[test]
/// Tests if the PgnData struct can be parsed and then converted back to a string.
fn parsed_eq_original() {
    let pgn_str = PGN_STR_EXAMPLE;
    let pgn_data = PgnData::from_str(pgn_str).unwrap();
    assert_eq!(pgn_str, pgn_data.to_string());
}

#[test]
/// Tests if we can clear the headers from a PgnData struct.
fn can_clear_headers() {
    let pgn_str = PGN_STR_EXAMPLE;
    let mut pgn_data = PgnData::from_str(pgn_str).unwrap();
    pgn_data.clear_headers();
    assert_eq!(pgn_data.headers.event, "");
    assert_eq!(pgn_data.headers.site, "");
    assert_eq!(pgn_data.headers.date, "");
    assert_eq!(pgn_data.headers.round, "");
    assert_eq!(pgn_data.headers.white, "");
    assert_eq!(pgn_data.headers.black, "");
    assert_eq!(pgn_data.headers.result, "");
}

#[test]
/// Tests if additional headers are ignored when parsing a PGN string.
fn ignores_additional_headers() {
    let pgn_str = PGN_STR_EXAMPLE_EXTRA_HEADER;
    let pgn_data = PgnData::from_str(pgn_str).unwrap();
    assert!(!pgn_data.to_string().contains("FOOBAR"));
}

#[test]
/// Tests if the default PgnHeaders struct is empty.
fn default_headers() {
    let pgn_data = PgnHeaders::default();
    assert_eq!(pgn_data.event, "");
    assert_eq!(pgn_data.site, "");
    assert_eq!(pgn_data.date, "");
    assert_eq!(pgn_data.round, "");
    assert_eq!(pgn_data.white, "");
    assert_eq!(pgn_data.black, "");
    assert_eq!(pgn_data.result, "");
}

#[test]
/// Tests if the default PgnData struct is empty.
fn default_pgn_data() {
    let pgn_data = PgnData::default();
    assert!(pgn_data.moves.is_empty());
    assert!(pgn_data.headers.is_empty());
}

#[test]
/// Test if the bincode Zlib compression is correct for PGN structs.
fn bincode_zlib_pgn_data() {
    let pgn_str = PGN_STR_EXAMPLE;
    let pgn_data = PgnData::from_str(pgn_str).unwrap();
    let compressed_data = compress_pgn_data(&pgn_data);
    let decompressed_data = decompress_pgn_data(&compressed_data).unwrap();
    let decompressed_pgn_str = decompressed_data.to_string();
    assert_eq!(pgn_str, decompressed_pgn_str);
}

#[test]
/// Test if the bincode Zlib compression is correct for PGN strings.
fn bincode_zlib_pgn_str() {
    let pgn_str = PGN_STR_EXAMPLE;
    let compressed_data = compress_pgn_str(pgn_str).unwrap();
    let decompressed_pgn_str = decompress_pgn_str(&compressed_data).unwrap();
    assert_eq!(pgn_str, decompressed_pgn_str);
}

#[test]
/// An extra header leaves no trace: not in the fields, not in the
/// moves, not in the formatted text.
fn extra_header_leaves_no_trace() {
    let pgn_str = "[Event \"Casual\"]\n[Site \"Home\"]\n[Date \"2023.01.03\"]\n[Round \"1\"]\n[White \"A\"]\n[Black \"B\"]\n[Result \"*\"]\n[Extra \"FOOBAR\"]\n\n1. a4 Nf6 *";
    let pgn_data = PgnData::from_str(pgn_str).unwrap();
    assert_eq!(pgn_data.moves.len(), 2);
    assert_eq!(pgn_data.moves[0].0, "a4");
    assert_eq!(pgn_data.moves[1].0, "Nf6");
    assert!(!pgn_data.headers.event.contains("FOOBAR"));
    assert!(!pgn_data.to_string().contains("FOOBAR"));
    assert!(!pgn_data.to_string().contains("Extra"));
}

#[test]
/// An empty game survives the binary round trip and stays empty.
fn empty_game_roundtrip() {
    let g = PgnData::new();
    let decoded = decompress_pgn_data(&compress_pgn_data(&g)).unwrap();
    assert!(decoded.is_empty());
}

#[test]
/// The terminator's result is authoritative even without a Result header.
fn result_from_terminator() {
    let pgn_str = "[Event \"Casual\"]\n[White \"A\"]\n[Black \"B\"]\n\n1. e4 e5 1-0";
    let pgn_data = PgnData::from_str(pgn_str).unwrap();
    assert_eq!(pgn_data.headers.result, "1-0");
}

#[test]
/// The terminator's result overwrites a disagreeing Result header.
fn result_overwrites_header() {
    let pgn_str = "[Result \"0-1\"]\n\n1. e4 e5 1-0";
    let pgn_data = PgnData::from_str(pgn_str).unwrap();
    assert_eq!(pgn_data.headers.result, "1-0");
}

#[test]
/// A `*` terminator states no result, so a Result header stands.
fn star_keeps_header_result() {
    let pgn_str = "[Result \"1/2-1/2\"]\n\n1. e4 e5 *";
    let pgn_data = PgnData::from_str(pgn_str).unwrap();
    assert_eq!(pgn_data.headers.result, "1/2-1/2");
}

#[test]
/// For a duplicated recognized header the last occurrence wins.
fn duplicate_header_last_wins() {
    let pgn_str = "[Event \"First\"]\n[Event \"Second\"]\n\n1. e4 1-0";
    let pgn_data = PgnData::from_str(pgn_str).unwrap();
    assert_eq!(pgn_data.headers.event, "Second");
}

#[test]
/// Comments, variations and numeric annotation glyphs are discarded.
fn comments_and_variations_discarded() {
    let pgn_str = "1. e4 {a comment with spaces} e5 (1... c5 2. Nf3 (2. c3)) $14 2. Nf3 1-0";
    let pgn_data = PgnData::from_str(pgn_str).unwrap();
    assert_eq!(pgn_data.moves.len(), 3);
    assert_eq!(pgn_data.moves[0].0, "e4");
    assert_eq!(pgn_data.moves[1].0, "e5");
    assert_eq!(pgn_data.moves[2].0, "Nf3");
}

#[test]
/// A move number glued to its move, and `!`/`?` annotation suffixes,
/// still yield the bare move tokens.
fn glued_numbers_and_suffixes() {
    let pgn_data = PgnData::from_str("1.e4 e5!? 2...Nf6 1-0").unwrap();
    assert_eq!(pgn_data.moves.len(), 3);
    assert_eq!(pgn_data.moves[0].0, "e4");
    assert_eq!(pgn_data.moves[1].0, "e5");
    assert_eq!(pgn_data.moves[2].0, "Nf6");
}

#[test]
/// The decoded game is equal, structurally, to the game that was encoded.
fn decoded_game_equals_original() {
    let pgn_data = PgnData::from_str(PGN_STR_EXAMPLE).unwrap();
    let decoded = decompress_pgn_data(&compress_pgn_data(&pgn_data)).unwrap();
    assert_eq!(pgn_data, decoded);
    assert_eq!(pgn_data.headers, decoded.headers);
}

#[test]
/// A structural layout whose move string is not a move token is rejected.
fn error_layout_with_invalid_move() {
    let mut pgn_data = PgnData::new();
    pgn_data.moves.push(SanPlusWrapper(String::from("xyzzy")));
    let bytes = encode_struct(&pgn_data);
    assert_eq!(decode_struct(&bytes).unwrap_err(), CodecError::MalformedLayout);
}

#[test]
/// An empty game formats as seven empty header lines, one blank line,
/// and an empty move/result section.
fn format_empty_game() {
    let g = PgnData::new();
    let expected = "[Event \"\"]\n[Site \"\"]\n[Date \"\"]\n[Round \"\"]\n[White \"\"]\n[Black \"\"]\n[Result \"\"]\n\n";
    assert_eq!(expected, g.to_string());
}

#[test]
/// A short game formats with move numbers before white's moves and the
/// result after the last move.
fn format_short_game() {
    let pgn_str = "[Event \"E\"]\n[Site \"S\"]\n[Date \"D\"]\n[Round \"R\"]\n[White \"W\"]\n[Black \"B\"]\n[Result \"1-0\"]\n\n1. e4 e5 2. Nf3 1-0";
    let pgn_data = PgnData::from_str(pgn_str).unwrap();
    assert_eq!(pgn_str, pgn_data.to_string());
}

#[test]
/// Every line of the wrapped move/result section stays within 80
/// characters.
fn wrapped_lines_within_80() {
    let pgn_data = PgnData::from_str(PGN_STR_EXAMPLE).unwrap();
    let text = pgn_data.to_string();
    for line in text.lines() {
        assert!(line.chars().count() <= 80);
    }
}

#[test]
/// Replacing the section's line breaks by spaces recovers exactly the
/// numbered tokens joined by single spaces: no break falls inside a token.
fn wrap_breaks_only_at_spaces() {
    let pgn_data = PgnData::from_str(PGN_STR_EXAMPLE).unwrap();
    let text = pgn_data.to_string();
    let section = text.split_once("\n\n").unwrap().1;
    let mut words: Vec<String> = Vec::new();
    for (i, m) in pgn_data.moves.iter().enumerate() {
        if i % 2 == 0 {
            words.push(format!("{}.", i / 2 + 1));
        }
        words.push(m.0.clone());
    }
    words.push(pgn_data.headers.result.clone());
    assert_eq!(section.replace('\n', " "), words.join(" "));
}

#[test]
/// An input with no moves and no terminator holds no game.
fn error_no_game_found() {
    assert_eq!(PgnData::from_str("").unwrap_err(), ParseError::NoGameFound);
    assert_eq!(
        PgnData::from_str("[Event \"x\"]").unwrap_err(),
        ParseError::NoGameFound
    );
}

#[test]
/// An input that ends in the middle of a game is rejected.
fn error_unterminated_game() {
    assert_eq!(
        PgnData::from_str("1. e4 e5").unwrap_err(),
        ParseError::UnterminatedGame
    );
}

#[test]
/// A move token the move-notation capability rejects is an error.
fn error_invalid_move_token() {
    assert_eq!(
        PgnData::from_str("1. xyzzy 1-0").unwrap_err(),
        ParseError::InvalidMoveToken
    );
}

#[test]
/// A header line without the `[Name "value"]` shape is an error.
fn error_malformed_header() {
    assert_eq!(
        PgnData::from_str("[Event x]").unwrap_err(),
        ParseError::MalformedHeader
    );
}

#[test]
/// Garbage bytes are not a zlib stream.
fn error_corrupt_stream() {
    let garbage: Vec<u8> = vec![1, 2, 3, 4];
    assert_eq!(
        decompress_pgn_data(&garbage).unwrap_err(),
        CodecError::CorruptStream
    );
}

#[test]
/// A length prefix that exceeds the remaining bytes is malformed.
fn error_malformed_layout() {
    assert_eq!(decode_struct(&Vec::new()).unwrap_err(), CodecError::MalformedLayout);
    let bad: Vec<u8> = vec![5, 0, 0, 0, 0, 0, 0, 0];
    assert_eq!(decode_struct(&bad).unwrap_err(), CodecError::MalformedLayout);
}

#[test]
/// Bytes after a structurally complete game are rejected.
fn error_trailing_bytes() {
    let mut bytes = encode_struct(&PgnData::new());
    bytes.push(0);
    assert_eq!(decode_struct(&bytes).unwrap_err(), CodecError::TrailingBytes);
}

#[test]
/// The structural layout of the empty game: seven empty strings and a
/// zero move count, each length as eight little-endian bytes.
fn encode_struct_empty_layout() {
    let bytes = encode_struct(&PgnData::new());
    assert_eq!(bytes, vec![0u8; 64]);
}

#[test]
/// The move-notation capability validates tokens and renders them back.
fn san_wrapper_validates() {
    assert!(SanPlusWrapper::from_str("xyzzy").is_none());
    assert!(SanPlusWrapper::from_str("").is_none());
    let m = SanPlusWrapper::from_str("e4").unwrap();
    assert_eq!(m.0, "e4");
    let m = SanPlusWrapper::from_str("Qf7#").unwrap();
    assert_eq!(m.0, "Qf7#");
}

#[test]
/// Clearing headers leaves the move sequence untouched.
fn clear_headers_keeps_moves() {
    let mut pgn_data = PgnData::from_str("1. e4 e5 2. Nf3 1-0").unwrap();
    let before: Vec<String> = pgn_data.moves.iter().map(|m| m.0.clone()).collect();
    pgn_data.clear_headers();
    let after: Vec<String> = pgn_data.moves.iter().map(|m| m.0.clone()).collect();
    assert_eq!(before, after);
    assert!(pgn_data.headers.is_empty());
}
