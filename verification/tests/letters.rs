use hypertrie::alphabet::{fold_text, to_folded, CharIndex, ALPHABET, ALPHABET_SIZE, TABLE_SIZE};

#[test]
fn alphabet_has_the_declared_size() {
    assert_eq!(ALPHABET.chars().count(), ALPHABET_SIZE);
    assert_eq!(ALPHABET_SIZE, 92);
    assert_eq!(TABLE_SIZE, 128);
}

#[test]
fn every_alphabet_character_has_its_position_as_slot() {
    let index = CharIndex::new();
    for (i, c) in ALPHABET.chars().enumerate() {
        assert_eq!(index.get(c), Some(i));
    }
}

#[test]
fn slots_of_chosen_characters() {
    let index = CharIndex::new();
    assert_eq!(index.get('a'), Some(0));
    assert_eq!(index.get('z'), Some(25));
    assert_eq!(index.get('A'), Some(26));
    assert_eq!(index.get('Z'), Some(51));
    assert_eq!(index.get('0'), Some(52));
    assert_eq!(index.get('9'), Some(61));
    assert_eq!(index.get('.'), Some(62));
    assert_eq!(index.get('\\'), Some(87));
    assert_eq!(index.get(' '), Some(91));
}

#[test]
fn characters_outside_the_alphabet_have_no_slot() {
    let index = CharIndex::new();
    for c in ['\0', '\t', '\n', '~', '`', '=', '\u{7f}', '\u{80}', '\u{e9}', '\u{2122}', '\u{10ffff}'] {
        assert_eq!(index.get(c), None);
    }
    let mut with_slot = 0;
    for b in 0u8..=255 {
        if index.get(b as char).is_some() {
            with_slot += 1;
        }
    }
    assert_eq!(with_slot, ALPHABET_SIZE);
}

#[test]
fn folding_lowers_ascii_capitals_only() {
    assert_eq!(to_folded('A'), 'a');
    assert_eq!(to_folded('Z'), 'z');
    assert_eq!(to_folded('m'), 'm');
    assert_eq!(to_folded('@'), '@');
    assert_eq!(to_folded('['), '[');
    assert_eq!(to_folded('5'), '5');
    assert_eq!(to_folded('\u{c9}'), '\u{c9}');
    for b in 0u8..=127 {
        let c = b as char;
        assert_eq!(to_folded(c), c.to_ascii_lowercase());
    }
}

#[test]
fn folding_a_text_folds_each_character() {
    assert_eq!(fold_text("Hello, World!"), "hello, world!");
    assert_eq!(fold_text(""), "");
    assert_eq!(fold_text("\u{c9}COLE"), "\u{c9}cole");
    assert_eq!(fold_text("already lower 123"), "already lower 123");
    let text = "MiXeD \u{2122} CaSe";
    assert_eq!(fold_text(text), text.to_ascii_lowercase());
}
