use crazy_carding::text::{make_mtg_paragraph, TextItem};
use crazy_carding::words::{is_whitespace, split_words};

fn regular(s: &str) -> TextItem {
    TextItem::Regular(s.to_string())
}

fn italic(s: &str) -> TextItem {
    TextItem::Italic(s.to_string())
}

fn symbol(s: &str) -> TextItem {
    TextItem::Symbol(s.to_string())
}

#[test]
fn whitespace_is_what_unicode_calls_white_space() {
    for code in 0u32..0x11_0000 {
        if let Some(c) = char::from_u32(code) {
            assert_eq!(is_whitespace(c), c.is_whitespace(), "U+{:04X}", code);
        }
    }
}

#[test]
fn words_keep_the_style_of_their_run() {
    let paragraph = vec![regular("Haste "), italic("(This creature"), regular(" can")];
    assert_eq!(
        split_words(&paragraph),
        vec![regular("Haste"), italic("(This"), italic("creature"), regular("can")]
    );
}

#[test]
fn symbol_is_one_word() {
    let paragraph = vec![regular("a"), symbol("T"), regular("b c")];
    assert_eq!(
        split_words(&paragraph),
        vec![regular("a"), symbol("T"), regular("b"), regular("c")]
    );
    assert_eq!(split_words(&vec![symbol("2 W")]), vec![symbol("2 W")]);
}

#[test]
fn runs_of_white_space_separate_once() {
    let paragraph = vec![regular("  a \t\n b\u{a0}\u{2003}c  ")];
    assert_eq!(split_words(&paragraph), vec![regular("a"), regular("b"), regular("c")]);
}

#[test]
fn white_space_alone_holds_no_word() {
    assert_eq!(split_words(&vec![regular(" \t "), italic(" ")]), Vec::<TextItem>::new());
    assert_eq!(split_words(&Vec::new()), Vec::<TextItem>::new());
    assert_eq!(split_words(&vec![regular("")]), Vec::<TextItem>::new());
}

#[test]
fn words_of_a_tokenized_explanation() {
    let paragraph = make_mtg_paragraph(
        "(This creature can attack and {T} as soon as it comes under your control.)",
    );
    assert_eq!(
        split_words(&paragraph),
        vec![
            italic("(This"),
            italic("creature"),
            italic("can"),
            italic("attack"),
            italic("and"),
            symbol("T"),
            italic("as"),
            italic("soon"),
            italic("as"),
            italic("it"),
            italic("comes"),
            italic("under"),
            italic("your"),
            italic("control.)"),
        ]
    );
}

#[test]
fn words_are_the_same_as_split_whitespace() {
    let text = " Whenever  this creature\tattacks,\n draw a card. ";
    let expected: Vec<TextItem> = text.split_whitespace().map(regular).collect();
    assert_eq!(split_words(&vec![regular(text)]), expected);
}
