use hjson::error::ErrorCode;
use hjson::reader::StringReader;

fn reader(text: &str) -> StringReader {
    StringReader::new(text.as_bytes().to_vec())
}

#[test]
fn skips_whitespace_and_all_comment_styles() {
    let mut r = reader("  # c\n// c\n/* c */123");
    r.parse_whitespace().unwrap();
    assert_eq!(r.peek().unwrap(), Some(b'1'));
    assert_eq!(r.next_char().unwrap(), Some(b'1'));
    assert_eq!(r.next_char().unwrap(), Some(b'2'));
    assert_eq!(r.next_char().unwrap(), Some(b'3'));
    assert_eq!(r.next_char().unwrap(), None);
}

#[test]
fn unterminated_block_comment_fails() {
    let mut r = reader("/* unterminated");
    let e = r.parse_whitespace().unwrap_err();
    assert_eq!(e.code, ErrorCode::TrailingCharacters);
    assert_eq!((e.line, e.col), (1, 15));
}

#[test]
fn block_comment_closing_after_stars() {
    let mut r = reader("/* a **/7");
    r.parse_whitespace().unwrap();
    assert_eq!(r.peek().unwrap(), Some(b'7'));
}

#[test]
fn stray_slash_is_swallowed() {
    // A '/' that opens no comment is consumed as an ordinary byte.
    let mut r = reader("/x 1");
    r.parse_whitespace().unwrap();
    assert_eq!(r.peek().unwrap(), Some(b'x'));
}

#[test]
fn lone_slash_at_end_fails() {
    let mut r = reader("/");
    let e = r.parse_whitespace().unwrap_err();
    assert_eq!(e.code, ErrorCode::TrailingCharacters);
}

#[test]
fn empty_input_is_all_insignificant() {
    let mut r = reader("");
    r.parse_whitespace().unwrap();
    assert!(r.eof().unwrap());
}

#[test]
fn position_tracks_pulled_bytes() {
    let mut r = reader("a\nbc");
    assert_eq!(r.pos(), (1, 0));
    r.next_char().unwrap();
    assert_eq!(r.pos(), (1, 1));
    r.next_char().unwrap();
    assert_eq!(r.pos(), (2, 0));
    r.next_char().unwrap();
    assert_eq!(r.pos(), (2, 1));
}

#[test]
fn peeking_pulls_position_forward() {
    // Position follows bytes pulled from the source, not bytes consumed
    // out of the lookahead buffer.
    let mut r = reader("xy");
    r.peek_next(1).unwrap();
    assert_eq!(r.pos(), (1, 2));
    assert_eq!(r.next_char().unwrap(), Some(b'x'));
    assert_eq!(r.pos(), (1, 2));
}

#[test]
fn lookahead_and_pushback() {
    let mut r = reader("ab");
    assert_eq!(r.peek_next(0).unwrap(), Some(b'a'));
    assert_eq!(r.peek_next(1).unwrap(), Some(b'b'));
    assert_eq!(r.peek_next(2).unwrap(), None);
    let c = r.next_char().unwrap().unwrap();
    assert_eq!(c, b'a');
    r.uneat_char(c);
    assert_eq!(r.peek().unwrap(), Some(b'a'));
    r.eat_char();
    assert_eq!(r.next_char_or_null().unwrap(), b'b');
    assert_eq!(r.next_char_or_null().unwrap(), 0);
}

#[test]
fn peek_or_null_reports_sentinel_at_end() {
    let mut r = reader("");
    assert_eq!(r.peek_or_null().unwrap(), 0);
    assert!(r.eof().unwrap());
    let mut r2 = reader("z");
    assert_eq!(r2.peek_or_null().unwrap(), b'z');
    assert!(!r2.eof().unwrap());
}

#[test]
fn error_carries_current_position() {
    let mut r = reader("q\n/*");
    r.next_char().unwrap();
    r.next_char().unwrap();
    let e = r.error(ErrorCode::InvalidNumber);
    assert_eq!(e.code, ErrorCode::InvalidNumber);
    assert_eq!((e.line, e.col), (2, 0));
}

#[test]
fn line_comment_stops_at_newline() {
    let mut r = reader("# note\nrest");
    r.parse_whitespace().unwrap();
    assert_eq!(r.peek().unwrap(), Some(b'r'));
}
