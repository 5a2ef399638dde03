use tokesies::filters::DefaultFilter;
use tokesies::filters::Filter;
use tokesies::filters::HashFilter;
use tokesies::filters::VecFilter;
use tokesies::filters::WhitespaceFilter;
use tokesies::Token;

use std::collections::HashSet;

#[test]
fn whitespace_filter_decisions() {
    let f = WhitespaceFilter {};
    assert_eq!(f.on_char(&' '), (true, false));
    assert_eq!(f.on_char(&'\t'), (true, false));
    assert_eq!(f.on_char(&'\n'), (true, false));
    assert_eq!(f.on_char(&'a'), (false, false));
    assert_eq!(f.on_char(&'!'), (false, false));
}

#[test]
fn hash_filter_decisions() {
    let mut keep_chars: HashSet<u32> = HashSet::new();
    keep_chars.insert('!' as u32);
    let mut drop_chars: HashSet<u32> = HashSet::new();
    drop_chars.insert(' ' as u32);
    let f = HashFilter { keep_chars, drop_chars };
    assert_eq!(f.on_char(&'!'), (true, true));
    assert_eq!(f.on_char(&' '), (true, false));
    assert_eq!(f.on_char(&'a'), (false, false));
}

#[test]
fn vec_filter_decisions() {
    let mut f = VecFilter { keep_chars: Vec::new(), drop_chars: Vec::new() };
    assert_eq!(f.on_char(&'!'), (false, false));
    f.add_keep('!');
    f.add_drop(' ');
    assert_eq!(f.on_char(&'!'), (true, true));
    assert_eq!(f.on_char(&' '), (true, false));
    assert_eq!(f.on_char(&'a'), (false, false));
    // A code point beyond both tables is ordinary content.
    assert_eq!(f.on_char(&'\u{201C}'), (false, false));
    // Adding one char leaves earlier decisions in place.
    f.add_keep('\u{201C}');
    assert_eq!(f.on_char(&'\u{201C}'), (true, true));
    assert_eq!(f.on_char(&'!'), (true, true));
    assert_eq!(f.on_char(&' '), (true, false));
}

#[test]
fn default_filter_decisions() {
    let f = DefaultFilter {};
    for c in [' ', '\t', '\n', '\r', '\u{C}'] {
        assert_eq!(f.on_char(&c), (true, false));
    }
    for c in [
        '#', '!', '\\', '"', '%', '&', '\'', '(', ')', '*', '+', '-', '.', '/', ':', ';', '<',
        '=', '>', '?', '@', '[', ']', '^', '_', '`', '{', '|', '}', '~', '\u{201C}', '\u{201D}',
        '\u{2033}',
    ] {
        assert_eq!(f.on_char(&c), (true, true));
    }
    for c in ['a', 'Z', '0', '\u{e9}', '$'] {
        assert_eq!(f.on_char(&c), (false, false));
    }
}

#[test]
fn token_accessors() {
    let t = Token::from_str("abc", 4, 2);
    assert_eq!(t.term(), "abc");
    assert_eq!(t.start_offset, 4);
    assert_eq!(t.position, 2);
}
