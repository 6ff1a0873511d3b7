use tron_core::grammar::{name_char, placeholder_end};
use tron_core::text::{string_of, to_chars};

#[test]
fn name_characters_are_ascii_letters_digits_and_underscore() {
    for c in ['a', 'z', 'A', 'Z', '0', '9', '_', 'm', 'Q', '5'] {
        assert!(name_char(c), "{}", c);
    }
    for c in ['{', '}', ' ', '-', '.', '=', '\n', 'é', 'ß', '٣', '/', ':', '@', '[', '`', '~'] {
        assert!(!name_char(c), "{}", c);
    }
}

#[test]
fn a_placeholder_is_found_where_it_starts() {
    let text = to_chars("ab{{name}}cd");
    assert_eq!(placeholder_end(&text, 2), Some(8));
    for i in [0, 1, 3, 4, 8, 9, 10, 11] {
        assert_eq!(placeholder_end(&text, i), None, "{}", i);
    }
}

#[test]
fn the_shortest_placeholder_has_five_characters() {
    assert_eq!(placeholder_end(&to_chars("{{a}}"), 0), Some(3));
    assert_eq!(placeholder_end(&to_chars("{{}}"), 0), None);
    assert_eq!(placeholder_end(&to_chars("{{a}"), 0), None);
    assert_eq!(placeholder_end(&to_chars("{{a"), 0), None);
    assert_eq!(placeholder_end(&to_chars("{{"), 0), None);
    assert_eq!(placeholder_end(&to_chars("{"), 0), None);
    assert_eq!(placeholder_end(&to_chars("{a}}x"), 0), None);
}

#[test]
fn characters_are_counted_not_bytes() {
    let text = to_chars("é{{x}}");
    assert_eq!(text.len(), 6);
    assert_eq!(placeholder_end(&text, 1), Some(4));
    assert_eq!(string_of(&text, 0, 1), "é");
    assert_eq!(string_of(&text, 3, 4), "x");
    assert_eq!(string_of(&text, 0, 6), "é{{x}}");
    assert_eq!(string_of(&text, 2, 2), "");
}

#[test]
fn text_becomes_its_characters() {
    assert_eq!(to_chars(""), Vec::<char>::new());
    assert_eq!(to_chars("a{b"), vec!['a', '{', 'b']);
    assert_eq!(to_chars("日本"), vec!['日', '本']);
}
