use crazy_carding::layout::{layout, Extent, Layout, MeasuredLine, PlacedRun, Word};
use crazy_carding::text::{make_mtg_paragraph, TextItem};
use crazy_carding::words::split_words;

fn regular(s: &str) -> TextItem {
    TextItem::Regular(s.to_string())
}

fn boxed(width: u32, height: u32) -> Extent {
    Extent { width, height }
}

fn word(name: &str, width: u32, height: u32) -> Word {
    Word { item: regular(name), extent: boxed(width, height) }
}

fn placed(name: &str, x: u32, width: u32, height: u32) -> PlacedRun {
    PlacedRun { item: regular(name), x, extent: boxed(width, height) }
}

/// A stand-in for a font: every character is 17 pixels wide, a symbol is a
/// square, and letters with a descender are taller than the others.
fn measure(item: &TextItem) -> Extent {
    match item {
        TextItem::Regular(t) | TextItem::Italic(t) => {
            let deep = t.chars().any(|c| "gjpqy(),".contains(c));
            boxed(17 * t.chars().count() as u32, if deep { 40 } else { 31 })
        }
        TextItem::Symbol(_) => boxed(38, 38),
    }
}

fn measured(explanation: &str) -> Vec<Word> {
    split_words(&make_mtg_paragraph(explanation))
        .into_iter()
        .map(|item| {
            let extent = measure(&item);
            Word { item, extent }
        })
        .collect()
}

fn check_invariants(l: &Layout, keyword: Extent, words: &[Word], space: u32, max: u32) {
    assert_eq!(l.keyword_extent, keyword);
    assert_eq!(l.canvas_width, max);
    assert!(!l.lines.is_empty());
    let mut seen = Vec::new();
    let mut height = 0u64;
    for (k, line) in l.lines.iter().enumerate() {
        let lead = if k == 0 { keyword.width } else { 0 };
        let mut x = lead as u64;
        let mut right = lead as u64;
        let mut tall = 0;
        for (j, run) in line.runs.iter().enumerate() {
            if j > 0 {
                x = right + space as u64;
            }
            assert_eq!(run.x as u64, x);
            right = x + run.extent.width as u64;
            tall = tall.max(run.extent.height);
            seen.push(Word { item: run.item.clone(), extent: run.extent });
        }
        assert_eq!(line.pixel_width as u64, right);
        assert_eq!(line.pixel_height, tall);
        assert!(line.pixel_width <= max || line.runs.len() == 1);
        if !words.is_empty() {
            assert!(!line.runs.is_empty());
        }
        if let Some(below) = l.lines.get(k + 1) {
            assert!(right + space as u64 + below.runs[0].extent.width as u64 > max as u64);
        }
        let high = if k == 0 { keyword.height.max(line.pixel_height) } else { line.pixel_height };
        height += high as u64;
    }
    assert_eq!(seen, words);
    assert_eq!(l.canvas_height as u64, height);
}

#[test]
fn words_wrap_where_the_next_would_end_beyond_the_width() {
    let words = vec![word("a", 30, 10), word("b", 40, 12), word("c", 50, 8), word("d", 20, 10)];
    let l = layout("Kw", boxed(25, 11), &words, 5, 100).unwrap();
    assert_eq!(
        l,
        Layout {
            keyword: "Kw".to_string(),
            keyword_extent: boxed(25, 11),
            lines: vec![
                MeasuredLine {
                    runs: vec![placed("a", 25, 30, 10), placed("b", 60, 40, 12)],
                    pixel_width: 100,
                    pixel_height: 12,
                },
                MeasuredLine {
                    runs: vec![placed("c", 0, 50, 8), placed("d", 55, 20, 10)],
                    pixel_width: 75,
                    pixel_height: 10,
                },
            ],
            canvas_width: 100,
            canvas_height: 22,
        }
    );
}

#[test]
fn line_exactly_as_wide_as_the_canvas_is_accepted() {
    let words = vec![word("a", 45, 10), word("b", 50, 10)];
    let l = layout("", boxed(0, 0), &words, 5, 100).unwrap();
    assert_eq!(l.lines.len(), 1);
    assert_eq!(l.lines[0].pixel_width, 100);
    let l = layout("", boxed(0, 0), &words, 5, 99).unwrap();
    assert_eq!(l.lines.len(), 2);
    assert_eq!(l.lines[0].pixel_width, 45);
    assert_eq!(l.lines[1].pixel_width, 50);
}

#[test]
fn keyword_taller_than_the_first_line_sets_its_height() {
    let words = vec![word("a", 60, 10), word("b", 60, 7)];
    let l = layout("Kw", boxed(20, 30), &words, 5, 100).unwrap();
    assert_eq!(l.lines.len(), 2);
    assert_eq!(l.lines[0].pixel_height, 10);
    assert_eq!(l.canvas_height, 37);
    let l = layout("Kw", boxed(20, 4), &words, 5, 100).unwrap();
    assert_eq!(l.canvas_height, 17);
}

#[test]
fn word_wider_than_the_canvas_stands_alone() {
    let words = vec![word("a", 10, 10), word("wide", 150, 10), word("b", 20, 10)];
    let l = layout("", boxed(0, 0), &words, 5, 100).unwrap();
    assert_eq!(l.lines.len(), 3);
    assert_eq!(l.lines[1].runs, vec![placed("wide", 0, 150, 10)]);
    assert_eq!(l.lines[1].pixel_width, 150);
    assert_eq!(l.lines[2].runs, vec![placed("b", 0, 20, 10)]);
    check_invariants(&l, boxed(0, 0), &words, 5, 100);
}

#[test]
fn first_word_stays_on_the_keyword_line_even_if_it_does_not_fit() {
    let words = vec![word("a", 50, 10), word("b", 20, 10)];
    let l = layout("Keyword", boxed(60, 10), &words, 5, 100).unwrap();
    assert_eq!(l.lines.len(), 2);
    assert_eq!(l.lines[0].runs, vec![placed("a", 60, 50, 10)]);
    assert_eq!(l.lines[0].pixel_width, 110);
    assert_eq!(l.lines[1].runs, vec![placed("b", 0, 20, 10)]);
    check_invariants(&l, boxed(60, 10), &words, 5, 100);
}

#[test]
fn keyword_offset_counts_on_the_first_line_only() {
    let words = vec![word("a", 40, 10), word("b", 40, 10), word("c", 40, 10), word("d", 40, 10)];
    let l = layout("Kw", boxed(50, 10), &words, 0, 100).unwrap();
    assert_eq!(l.lines.len(), 3);
    assert_eq!(l.lines[0].runs.len(), 1);
    assert_eq!(l.lines[1].runs.len(), 2);
    assert_eq!(l.lines[2].runs.len(), 1);
    check_invariants(&l, boxed(50, 10), &words, 0, 100);
}

#[test]
fn empty_explanation_is_one_line_with_the_keyword_alone() {
    let keyword = boxed(102, 38);
    let words = measured("");
    assert!(words.is_empty());
    let l = layout("Flying", keyword, &words, 9, 625).unwrap();
    assert_eq!(
        l,
        Layout {
            keyword: "Flying".to_string(),
            keyword_extent: keyword,
            lines: vec![MeasuredLine { runs: vec![], pixel_width: 102, pixel_height: 0 }],
            canvas_width: 625,
            canvas_height: 38,
        }
    );
}

#[test]
fn haste_reminder_text_wraps_into_two_lines() {
    let keyword = boxed(17 * 6, 31);
    let words =
        measured("(This creature can attack and {T} as soon as it comes under your control.)");
    assert_eq!(words.len(), 14);
    let l = layout("Haste", keyword, &words, 9, 625).unwrap();
    assert!(l.lines.len() == 2 || l.lines.len() == 3);
    assert_eq!(l.lines.len(), 2);
    for line in &l.lines {
        assert!(line.pixel_width <= 625);
    }
    let counts: Vec<usize> = l.lines.iter().map(|line| line.runs.len()).collect();
    assert_eq!(counts, vec![6, 8]);
    assert_eq!(l.lines[0].pixel_width, 102 + 85 + 9 + 136 + 9 + 51 + 9 + 102 + 9 + 51 + 9 + 38);
    assert_eq!(
        l.lines[1].pixel_width,
        34 + 9 + 68 + 9 + 34 + 9 + 34 + 9 + 85 + 9 + 85 + 9 + 68 + 9 + 153
    );
    assert_eq!(l.lines[0].runs[5].item, TextItem::Symbol("T".to_string()));
    assert_eq!(l.lines[0].runs[5].x, 572);
    assert_eq!(
        l.canvas_height,
        keyword.height.max(l.lines[0].pixel_height) + l.lines[1].pixel_height
    );
    assert_eq!(l.canvas_height, 40 + 40);
    assert_eq!(l.canvas_width, 625);
    check_invariants(&l, keyword, &words, 9, 625);
}

#[test]
fn layouts_keep_their_invariants() {
    let texts = [
        "Flying",
        "a b c d e f g h i j k l m n o p q r s t u v w x y z",
        "{T}: Add {G}{G}. (Activate only as a sorcery.)",
        "Pneumonoultramicroscopicsilicovolcanoconiosis is a long word indeed",
    ];
    for text in texts {
        let words = measured(text);
        for max in [0, 1, 50, 120, 300, 625, 100_000] {
            for space in [0, 9] {
                for keyword in [boxed(0, 0), boxed(102, 38), boxed(700, 50)] {
                    let l = layout("Kw", keyword, &words, space, max).unwrap();
                    check_invariants(&l, keyword, &words, space, max);
                }
            }
        }
    }
}

#[test]
fn width_beyond_32_bits_has_no_layout() {
    let words = vec![word("a", 1, 1)];
    assert_eq!(layout("Kw", boxed(u32::MAX, 1), &words, 0, 100), None);
    let fits = layout("Kw", boxed(u32::MAX - 1, 1), &words, 0, 100).unwrap();
    assert_eq!(fits.lines[0].pixel_width, u32::MAX);
    assert!(layout("Kw", boxed(u32::MAX, 1), &Vec::new(), 0, 100).is_some());
}

#[test]
fn height_beyond_32_bits_has_no_layout() {
    let words = vec![word("a", 60, u32::MAX), word("b", 60, 1)];
    assert_eq!(layout("Kw", boxed(0, 0), &words, 0, 100), None);
    let words = vec![word("a", 60, u32::MAX - 1), word("b", 60, 1)];
    assert_eq!(layout("Kw", boxed(0, 0), &words, 0, 100).unwrap().canvas_height, u32::MAX);
    let words = vec![word("a", 60, 5), word("b", 60, 1)];
    assert_eq!(layout("Kw", boxed(0, u32::MAX), &words, 0, 100), None);
}

#[test]
fn wide_space_still_lets_the_next_word_start_a_line() {
    let words = vec![word("a", 10, 10), word("b", 10, 10)];
    let l = layout("", boxed(0, 0), &words, u32::MAX, u32::MAX).unwrap();
    assert_eq!(l.lines.len(), 2);
    check_invariants(&l, boxed(0, 0), &words, u32::MAX, u32::MAX);
}

#[test]
fn layouts_are_stacked() {
    let words = vec![word("a", 60, 10), word("b", 60, 7), word("c", 60, 9)];
    let l = layout("Kw", boxed(20, 30), &words, 5, 100).unwrap();
    assert_eq!(l.canvas_height, 30 + 7 + 9);
    assert!(l.is_stacked());
    let mut taller = l.clone();
    taller.canvas_height += 1;
    assert!(!taller.is_stacked());
    let mut shorter = l.clone();
    shorter.lines[1].pixel_height = 6;
    assert!(!shorter.is_stacked());
    let mut huge = l.clone();
    huge.lines[2].pixel_height = u32::MAX;
    assert!(!huge.is_stacked());
    let mut low_keyword = l;
    low_keyword.keyword_extent.height = 3;
    assert!(!low_keyword.is_stacked());
    low_keyword.canvas_height = 10 + 7 + 9;
    assert!(low_keyword.is_stacked());
}

#[test]
fn layout_without_lines_is_stacked_at_height_zero() {
    let mut l = layout("Kw", boxed(20, 30), &Vec::new(), 5, 100).unwrap();
    assert!(l.is_stacked());
    l.lines.clear();
    assert!(!l.is_stacked());
    l.canvas_height = 0;
    assert!(l.is_stacked());
}
