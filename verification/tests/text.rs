use seabun::lexer::Lexeme;
use seabun::def::TokenKind;
use seabun::error_span::error_len;
use seabun::select::longest_rule;
use seabun::text::{advance, byte_range, char_width, chars_of, trimmed};

#[test]
fn characters_of_a_str() {
    assert_eq!(chars_of("aé¬"), vec!['a', 'é', '¬']);
    assert_eq!(chars_of(""), Vec::<char>::new());
}

#[test]
fn utf8_widths() {
    assert_eq!(char_width('a'), 1);
    assert_eq!(char_width('é'), 2);
    assert_eq!(char_width('€'), 3);
    assert_eq!(char_width('😀'), 4);
}

#[test]
fn byte_ranges_fall_between_characters() {
    let cs = chars_of("aéb");
    assert_eq!(byte_range(&cs, 1, 3), Some((1, 2)));
    assert_eq!(byte_range(&cs, 0, 4), Some((0, 3)));
    assert_eq!(byte_range(&cs, 2, 3), None);
    assert_eq!(byte_range(&cs, 3, 1), None);
    assert_eq!(byte_range(&cs, 0, 5), None);
}

#[test]
fn trimming_a_stretch() {
    let cs = chars_of("  ab c \t");
    assert_eq!(trimmed(&cs, 0, cs.len()).as_str(), "ab c");
    assert_eq!(trimmed(&cs, 0, 2).as_str(), "");
}

#[test]
fn advancing_counts_bytes_newlines_and_line_starts() {
    let cs = chars_of("é\n\nx");
    assert_eq!(advance(&cs, 0, 3, 0, 0), (4, 2, 4));
    assert_eq!(advance(&cs, 1, 4, 2, 7), (5, 2, 4));
    assert_eq!(advance(&cs, 0, 1, 0, 9), (2, 0, 9));
}

#[test]
fn the_longest_rule_wins() {
    let cs = chars_of("letter = 1");
    assert_eq!(longest_rule(&cs, 0), (6, Lexeme::Tok(TokenKind::Word)));
    let cs = chars_of("let x");
    assert_eq!(longest_rule(&cs, 0), (3, Lexeme::Tok(TokenKind::Let)));
    let cs = chars_of("  x");
    assert_eq!(longest_rule(&cs, 0), (2, Lexeme::Space));
    let cs = chars_of("$");
    assert_eq!(longest_rule(&cs, 0).0, 0);
}

#[test]
fn error_tokens_reach_as_far_as_a_rule_could_go() {
    let cs = chars_of("$$");
    assert_eq!(error_len(&cs, 0), 1);
    let cs = chars_of("\"ab\\q\"");
    assert_eq!(error_len(&cs, 0), 4);
    let cs = chars_of("<<ab");
    assert_eq!(error_len(&cs, 0), 4);
    let cs = chars_of("'ab'");
    assert_eq!(error_len(&cs, 0), 2);
}
