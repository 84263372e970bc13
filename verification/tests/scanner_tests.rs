use json::scanner::Scanner;
use json::text::same_text;

#[test]
fn a_new_scanner_stands_at_the_first_character() {
    let scanner = Scanner::new("ab");
    assert_eq!(scanner.peek(), Some('a'));
    assert!(!scanner.at_end());
}

#[test]
fn an_empty_text_is_at_its_end() {
    let mut scanner = Scanner::new("");
    assert!(scanner.at_end());
    assert_eq!(scanner.peek(), None);
    assert_eq!(scanner.advance(), None);
    assert!(scanner.at_end());
}

#[test]
fn peek_does_not_consume() {
    let scanner = Scanner::new("xy");
    assert_eq!(scanner.peek(), Some('x'));
    assert_eq!(scanner.peek(), Some('x'));
}

#[test]
fn advance_returns_the_current_character_and_moves_on() {
    let mut scanner = Scanner::new("xyz");
    assert_eq!(scanner.advance(), Some('x'));
    assert_eq!(scanner.peek(), Some('y'));
    assert_eq!(scanner.advance(), Some('y'));
    assert_eq!(scanner.advance(), Some('z'));
    assert!(scanner.at_end());
    assert_eq!(scanner.advance(), None);
    assert_eq!(scanner.advance(), None);
}

#[test]
fn skip_whitespace_stops_at_the_first_other_character() {
    let mut scanner = Scanner::new(" \t\r\n x  y");
    scanner.skip_whitespace();
    assert_eq!(scanner.peek(), Some('x'));
    scanner.skip_whitespace();
    assert_eq!(scanner.peek(), Some('x'));
    scanner.advance();
    scanner.skip_whitespace();
    assert_eq!(scanner.advance(), Some('y'));
    scanner.skip_whitespace();
    assert!(scanner.at_end());
}

#[test]
fn skip_whitespace_knows_four_characters() {
    let mut scanner = Scanner::new("\u{b}x");
    scanner.skip_whitespace();
    assert_eq!(scanner.peek(), Some('\u{b}'));
    let mut scanner = Scanner::new("\u{a0}x");
    scanner.skip_whitespace();
    assert_eq!(scanner.peek(), Some('\u{a0}'));
}

#[test]
fn take_until_leaves_the_delimiter() {
    let mut scanner = Scanner::new("key\": 1");
    assert_eq!(scanner.take_until('"'), "key");
    assert_eq!(scanner.peek(), Some('"'));
    assert_eq!(scanner.take_until('"'), "");
    assert_eq!(scanner.advance(), Some('"'));
    assert_eq!(scanner.take_until('1'), ": ");
    assert_eq!(scanner.advance(), Some('1'));
    assert!(scanner.at_end());
}

#[test]
fn take_until_without_delimiter_takes_the_rest() {
    let mut scanner = Scanner::new("no quote here");
    assert_eq!(scanner.take_until('"'), "no quote here");
    assert!(scanner.at_end());
    assert_eq!(scanner.take_until('"'), "");
}

#[test]
fn take_until_any_stops_at_the_first_of_them() {
    let mut scanner = Scanner::new("12.5,true]x");
    assert_eq!(scanner.take_until_any(&[']', ',']), "12.5");
    assert_eq!(scanner.advance(), Some(','));
    assert_eq!(scanner.take_until_any(&[']', ',']), "true");
    assert_eq!(scanner.advance(), Some(']'));
    assert_eq!(scanner.take_until_any(&[']', ',']), "x");
    assert!(scanner.at_end());
}

#[test]
fn take_until_any_of_nothing_takes_the_rest() {
    let mut scanner = Scanner::new("a,b");
    assert_eq!(scanner.take_until_any(&[]), "a,b");
    assert!(scanner.at_end());
}

#[test]
fn the_scanner_works_on_whole_characters() {
    let mut scanner = Scanner::new("é東🦀\"ü");
    assert_eq!(scanner.advance(), Some('é'));
    assert_eq!(scanner.peek(), Some('東'));
    assert_eq!(scanner.take_until('"'), "東🦀");
    assert_eq!(scanner.advance(), Some('"'));
    assert_eq!(scanner.take_until_any(&['🦀']), "ü");
    assert!(scanner.at_end());
}

#[test]
fn same_text_compares_character_by_character() {
    assert!(same_text("", ""));
    assert!(same_text("null", "null"));
    assert!(same_text("東京", "東京"));
    assert!(!same_text("null", "nul"));
    assert!(!same_text("nul", "null"));
    assert!(!same_text("null", "nulL"));
    assert!(!same_text("", "a"));
    assert!(!same_text("a", ""));
}
