use rustlabs::abbreviations::replace;
use rustlabs::hosts::host_mappings;
use rustlabs::letters::add_chars_n;
use rustlabs::line_stats::{longest_lines, longest_lines_checked};
use rustlabs::rot13::rot13;
use rustlabs::song::singing;
use rustlabs::text::{chars_of, split, split_words, string_of, text_lines, trim, Sep};
use rustlabs::text_builder::{add_integer, add_space, add_str};
use rustlabs::unicode::is_whitespace;

fn integer_text(nr: i64) -> String {
    let mut s = String::new();
    add_integer(&mut s, nr);
    s
}

#[test]
fn add_chars_n_appends_n_minus_one() {
    assert_eq!(add_chars_n(String::from("x"), 'a', 3), "xaa");
    assert_eq!(add_chars_n(String::from("x"), 'a', 1), "x");
    assert_eq!(add_chars_n(String::from("x"), 'a', 0), "x");
    assert_eq!(add_chars_n(String::from("x"), 'a', -5), "x");
    assert_eq!(add_chars_n(String::new(), '💚', 2), "💚");
}

#[test]
fn alphabet_triangle() {
    let mut s = String::new();
    for i in 0..26u8 {
        let c = (i + b'a') as char;
        s = add_chars_n(s, c, 26 - i as i32);
    }
    assert_eq!(s.chars().count(), 325);
    assert!(s.starts_with(&"a".repeat(25)));
    assert!(s.ends_with("xxy"));
    assert!(!s.contains('z'));
}

#[test]
fn add_space_and_str() {
    let mut s = String::new();
    add_space(&mut s, 3);
    add_str(&mut s, "I");
    add_space(&mut s, 0);
    add_space(&mut s, -4);
    add_str(&mut s, "💚");
    add_space(&mut s, 1);
    assert_eq!(s, "   I💚 ");
}

#[test]
fn add_integer_groups_digits() {
    assert_eq!(integer_text(306437968), "306_437_968");
    assert_eq!(integer_text(0), "");
    assert_eq!(integer_text(7), "7");
    assert_eq!(integer_text(1200), "12");
    assert_eq!(integer_text(100), "1");
    assert_eq!(integer_text(1234), "1234");
    assert_eq!(integer_text(12345), "123_45");
    assert_eq!(integer_text(1234567), "123_4567");
}

#[test]
fn add_integer_appends() {
    let mut s = String::from("crate ");
    add_integer(&mut s, 42);
    assert_eq!(s, "crate 42");
}

#[test]
fn rot13_alphabet() {
    assert_eq!(
        rot13("ABCDEFGHIJKLMNOPQRSTUVWXYZabcdefghijklmnopqrstuvwxyz"),
        Ok(String::from("NOPQRSTUVWXYZABCDEFGHIJKLMnopqrstuvwxyzabcdefghijklm"))
    );
}

#[test]
fn rot13_keeps_spacing() {
    assert_eq!(rot13("Hello World\n"), Ok(String::from("Uryyb Jbeyq\n")));
    assert_eq!(rot13("a\tb\r\n"), Ok(String::from("n\to\r\n")));
    assert_eq!(rot13(""), Ok(String::new()));
}

#[test]
fn rot13_twice_is_identity() {
    let text = "The Quick Brown Fox\njumps over the lazy dog";
    let once = rot13(text).unwrap();
    assert_eq!(rot13(&once), Ok(String::from(text)));
}

#[test]
fn rot13_refuses_first_other_character() {
    assert_eq!(
        rot13("Hello, World!"),
        Err(String::from("Error: Non-ASCII character is encountered: ','"))
    );
    assert_eq!(
        rot13("abc é"),
        Err(String::from("Error: Non-ASCII character is encountered: 'é'"))
    );
}

#[test]
fn replace_expands_abbreviations() {
    let abbreviations = [("pt", "pentru"), ("ptr", "pentru"), ("dl", "domnul"), ("dna", "doamna")];
    assert_eq!(
        replace("Am fost la dl Popescu pt   ca\nptr dna", &abbreviations),
        "Am fost la domnul Popescu pentru ca pentru doamna"
    );
    assert_eq!(replace("   ", &abbreviations), "");
    assert_eq!(replace("", &abbreviations), "");
    assert_eq!(replace("ptx dlx", &abbreviations), "ptx dlx");
}

#[test]
fn replace_first_pair_wins() {
    let abbreviations = [("a", "first"), ("a", "second")];
    assert_eq!(replace("a b a", &abbreviations), "first b first");
}

#[test]
fn host_mappings_pairs_words() {
    let text = "127.0.0.1 localhost\n# comment line\n10.0.0.1 a b c\n";
    assert_eq!(host_mappings(text), "localhost => 127.0.0.1\na => 10.0.0.1\nc => b\n");
}

#[test]
fn host_mappings_comment_only_at_start() {
    assert_eq!(host_mappings(" # x y"), "x => #\n");
    assert_eq!(host_mappings("#a b"), "");
    assert_eq!(host_mappings("lonely"), "");
    assert_eq!(host_mappings(""), "");
}

#[test]
fn longest_lines_by_size_and_length() {
    assert_eq!(
        longest_lines("ab\nabc!\nxyz"),
        (String::from("abc!"), String::from("abc!"))
    );
    assert_eq!(longest_lines("éé\nabc"), (String::from("éé"), String::from("abc")));
    assert_eq!(longest_lines("ab\ncd"), (String::from("ab"), String::from("ab")));
    assert_eq!(longest_lines(""), (String::new(), String::new()));
    assert_eq!(longest_lines("a b\r\nabcd"), (String::from("a b"), String::from("abcd")));
}

#[test]
fn song_verses() {
    let s = singing();
    assert!(s.starts_with(
        "99 bottles of beer on the wall,\n99 bottles of beer.\nTake one down, pass it around,\n98 bottles of beer on the wall.\n\n\n"
    ));
    assert!(s.contains(
        "2 bottles of beer on the wall,\n2 bottles of beer.\nTake one down, pass it around,\n1 bottles of beer on the wall.\n\n\n1 bottle of beer on the wall,\n"
    ));
    assert!(s.ends_with(
        "No bottles of beer on the wall.\n\n\nNo bottles of beer on the wall,\nNo bottles of beer.\nGo to the store, buy some more,\n99 bottles of beer on the wall.\n"
    ));
    assert_eq!(s.matches("Take one down").count(), 99);
}

#[test]
fn split_keeps_empty_pieces() {
    let pieces = split(&chars_of("a,,b"), Sep::Char(','));
    let texts: Vec<String> = pieces.iter().map(|p| string_of(p)).collect();
    assert_eq!(texts, vec!["a", "", "b"]);
    assert_eq!(split(&chars_of(""), Sep::Char(',')).len(), 1);
    assert_eq!(split(&chars_of("x \0y"), Sep::SpaceOrNul).len(), 3);
}

#[test]
fn split_words_and_trim() {
    let words: Vec<String> = split_words(&chars_of("  one\ttwo  three ")).iter().map(|w| string_of(w)).collect();
    assert_eq!(words, vec!["one", "two", "three"]);
    assert_eq!(string_of(&trim(&chars_of("\0 x y \0"), Sep::SpaceOrNul)), "x y");
}

#[test]
fn text_lines_like_str_lines() {
    assert_eq!(text_lines("a\r\nb\n\nc\n"), vec!["a", "b", "", "c"]);
    assert_eq!(text_lines(""), Vec::<String>::new());
}

#[test]
fn whitespace_class() {
    assert!(is_whitespace('\u{a0}'));
    assert!(is_whitespace('\t'));
    assert!(is_whitespace('\u{3000}'));
    assert!(!is_whitespace('x'));
    assert!(!is_whitespace('\0'));
    for c in ['\u{85}', '\u{2028}', '\u{200b}', 'a', ' ', '\u{1680}'] {
        assert_eq!(is_whitespace(c), c.is_whitespace(), "{:?}", c);
    }
}

#[test]
fn longest_lines_checked_on_ordinary_text() {
    assert_eq!(
        longest_lines_checked("ab\nabc!\nxyz"),
        Some((String::from("abc!"), String::from("abc!")))
    );
    assert_eq!(longest_lines_checked(""), Some((String::new(), String::new())));
}

#[test]
fn longest_lines_checked_long_ascii_line_is_kept() {
    // A line of letters weighs one per character.
    let line = "a".repeat(1000);
    assert_eq!(longest_lines_checked(&line), Some((line.clone(), line.clone())));
}
