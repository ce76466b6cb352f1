use crazy_carding::error::TextError;
use crazy_carding::fonts::Style;
use crazy_carding::layout::{layout, Extent, Word};
use crazy_carding::render::{render, DrawOp, Drawing};
use crazy_carding::symbols::{Symbol, Symbols};
use crazy_carding::text::{make_mtg_paragraph, TextItem};
use crazy_carding::words::split_words;

fn boxed(width: u32, height: u32) -> Extent {
    Extent { width, height }
}

fn catalogue(names: &[&str]) -> Symbols {
    Symbols { data: names.iter().map(|n| Symbol { symbol: n.to_string() }).collect() }
}

fn measured(explanation: &str) -> Vec<Word> {
    split_words(&make_mtg_paragraph(explanation))
        .into_iter()
        .map(|item| {
            let extent = match &item {
                TextItem::Regular(t) => boxed(10 * t.chars().count() as u32, 20),
                TextItem::Italic(t) => boxed(8 * t.chars().count() as u32, 22),
                TextItem::Symbol(_) => boxed(16, 16),
            };
            Word { item, extent }
        })
        .collect()
}

fn text(style: Style, text: &str, x: u32, y: u32) -> DrawOp {
    DrawOp::Text { style, text: text.to_string(), x, y }
}

#[test]
fn catalogue_knows_exactly_its_names() {
    let symbols = catalogue(&["T", "W", "2/W"]);
    assert!(symbols.contains("T"));
    assert!(symbols.contains("2/W"));
    assert!(!symbols.contains("t"));
    assert!(!symbols.contains("{T}"));
    assert!(!symbols.contains(""));
    assert!(!Symbols::default().contains("T"));
}

#[test]
fn drawing_places_every_run_on_its_line() {
    let words = measured("Tap {T} (now or later) ok");
    let l = layout("Haste ", boxed(60, 25), &words, 5, 120).unwrap();
    let drawing = render(&l, &catalogue(&["T"])).unwrap();
    assert_eq!(
        drawing,
        Drawing {
            width: 120,
            height: 25 + 22 + 20,
            ops: vec![
                text(Style::Bold, "Haste ", 0, 0),
                text(Style::Regular, "Tap", 60, 0),
                DrawOp::Symbol { name: "T".to_string(), x: 95, y: 0, size: 16 },
                text(Style::Italic, "(now", 0, 25),
                text(Style::Italic, "or", 37, 25),
                text(Style::Italic, "later)", 58, 25),
                text(Style::Regular, "ok", 0, 47),
            ],
        }
    );
}

#[test]
fn keyword_alone_is_drawn_alone() {
    let l = layout("Flying", boxed(102, 38), &Vec::new(), 9, 625).unwrap();
    assert_eq!(
        render(&l, &Symbols::default()),
        Ok(Drawing { width: 625, height: 38, ops: vec![text(Style::Bold, "Flying", 0, 0)] })
    );
}

#[test]
fn unknown_symbol_fails_the_drawing() {
    let words = vec![Word { item: TextItem::Symbol("nonexistent".to_string()), extent: boxed(16, 16) }];
    let l = layout("Haste", boxed(60, 25), &words, 5, 120).unwrap();
    assert_eq!(
        render(&l, &catalogue(&["T"])),
        Err(TextError::UnknownSymbol("nonexistent".to_string()))
    );
}

#[test]
fn first_unknown_symbol_is_the_one_reported() {
    let words = measured("{T} then {X} and {Y} on the next line");
    let l = layout("Kw", boxed(20, 20), &words, 5, 120).unwrap();
    assert_eq!(
        render(&l, &catalogue(&["T"])),
        Err(TextError::UnknownSymbol("X".to_string()))
    );
    assert_eq!(
        render(&l, &catalogue(&["T", "X"])),
        Err(TextError::UnknownSymbol("Y".to_string()))
    );
    assert!(render(&l, &catalogue(&["Y", "X", "T"])).is_ok());
}

#[test]
fn symbol_without_a_name_is_unknown() {
    let words = measured("a {} b");
    let l = layout("Kw", boxed(20, 20), &words, 5, 120).unwrap();
    assert_eq!(render(&l, &catalogue(&["T"])), Err(TextError::UnknownSymbol(String::new())));
}
