//! Greedy line wrapping of measured words behind a leading keyword.
//!
//! The keyword stands at the left of the first line and is never wrapped.
//! Words follow it one space apart; a word that would end beyond the canvas
//! width starts the next line, except that every line takes at least one word.

use crate::text::{Run, TextItem};
use vstd::prelude::*;

verus! {

/// The pixel box of a piece of text: how wide and how tall it is.
#[derive(Clone, Copy, Debug, PartialEq, Eq, Structural)]
pub struct Extent {
    pub width: u32,
    pub height: u32,
}

/// A word with the box that it was measured to take.
#[derive(Debug, Clone, PartialEq, Eq)]
pub struct Word {
    pub item: TextItem,
    pub extent: Extent,
}

/// The mathematical value of a [`Word`].
pub struct Measured {
    pub run: Run,
    pub width: nat,
    pub height: nat,
}

impl View for Word {
    type V = Measured;

    open spec fn view(&self) -> Measured {
        Measured {
            run: self.item@,
            width: self.extent.width as nat,
            height: self.extent.height as nat,
        }
    }
}

/// The measured words that a vector of words stands for.
pub open spec fn measured_of(words: Seq<Word>) -> Seq<Measured> {
    Seq::new(words.len(), |i: int| words[i]@)
}

/// A word at its place in a line: `x` is the distance of its left edge from
/// the left edge of the canvas.
#[derive(Debug, Clone, PartialEq, Eq)]
pub struct PlacedRun {
    pub item: TextItem,
    pub x: u32,
    pub extent: Extent,
}

/// The mathematical value of a [`PlacedRun`].
pub struct Placed {
    pub run: Run,
    pub x: nat,
    pub width: nat,
    pub height: nat,
}

impl View for PlacedRun {
    type V = Placed;

    open spec fn view(&self) -> Placed {
        Placed {
            run: self.item@,
            x: self.x as nat,
            width: self.extent.width as nat,
            height: self.extent.height as nat,
        }
    }
}

/// The placed runs that a vector of placed runs stands for.
pub open spec fn placed_of(runs: Seq<PlacedRun>) -> Seq<Placed> {
    Seq::new(runs.len(), |i: int| runs[i]@)
}

/// One line of a layout. `pixel_width` is the distance from the left edge of
/// the canvas to the right edge of the line's last run (on the first line the
/// keyword comes first, and alone it is the keyword's width); `pixel_height`
/// is the height of the line's tallest run, the keyword not counted.
#[derive(Debug, Clone, PartialEq, Eq)]
pub struct MeasuredLine {
    pub runs: Vec<PlacedRun>,
    pub pixel_width: u32,
    pub pixel_height: u32,
}

/// The mathematical value of a [`MeasuredLine`].
pub struct Line {
    pub runs: Seq<Placed>,
    pub width: nat,
    pub height: nat,
}

impl View for MeasuredLine {
    type V = Line;

    open spec fn view(&self) -> Line {
        Line {
            runs: placed_of(self.runs@),
            width: self.pixel_width as nat,
            height: self.pixel_height as nat,
        }
    }
}

/// The lines that a vector of measured lines stands for.
pub open spec fn lines_view(lines: Seq<MeasuredLine>) -> Seq<Line> {
    Seq::new(lines.len(), |i: int| lines[i]@)
}

/// A keyword and the wrapped lines of its explanation on a canvas.
#[derive(Debug, Clone, PartialEq, Eq)]
pub struct Layout {
    pub keyword: String,
    pub keyword_extent: Extent,
    pub lines: Vec<MeasuredLine>,
    pub canvas_width: u32,
    pub canvas_height: u32,
}

/// The mathematical value of a [`Layout`].
pub struct Page {
    pub keyword: Seq<char>,
    pub keyword_width: nat,
    pub keyword_height: nat,
    pub lines: Seq<Line>,
    pub canvas_width: nat,
    pub canvas_height: nat,
}

impl View for Layout {
    type V = Page;

    open spec fn view(&self) -> Page {
        Page {
            keyword: self.keyword@,
            keyword_width: self.keyword_extent.width as nat,
            keyword_height: self.keyword_extent.height as nat,
            lines: lines_view(self.lines@),
            canvas_width: self.canvas_width as nat,
            canvas_height: self.canvas_height as nat,
        }
    }
}

/// The larger of two numbers.
pub open spec fn larger(a: nat, b: nat) -> nat {
    if a >= b {
        a
    } else {
        b
    }
}

/// Where a line stops that holds the words before `next` and reaches to
/// `right`: each further word goes on it as long as, one space away, it ends
/// within `max`.
pub open spec fn line_end(words: Seq<Measured>, next: int, right: nat, space: nat, max: nat) -> int
    decreases words.len() - next,
{
    if 0 <= next < words.len() && right + space + words[next].width <= max {
        line_end(words, next + 1, right + space + words[next].width, space, max)
    } else {
        next
    }
}

/// The words `words[start..end)` placed left to right from `lead`, one space
/// apart.
pub open spec fn place(
    words: Seq<Measured>,
    start: int,
    end: int,
    lead: nat,
    space: nat,
) -> Seq<Placed>
    decreases end - start,
{
    if end <= start {
        Seq::empty()
    } else {
        let before = place(words, start, end - 1, lead, space);
        let x = if before.len() == 0 {
            lead
        } else {
            before.last().x + before.last().width + space
        };
        before.push(
            Placed {
                run: words[end - 1].run,
                x,
                width: words[end - 1].width,
                height: words[end - 1].height,
            },
        )
    }
}

/// The right edge of the last of the runs, or `lead` where there is none.
pub open spec fn right_edge(runs: Seq<Placed>, lead: nat) -> nat {
    if runs.len() == 0 {
        lead
    } else {
        runs.last().x + runs.last().width
    }
}

/// The height of the tallest of the runs, 0 where there is none.
pub open spec fn tallest(runs: Seq<Placed>) -> nat
    decreases runs.len(),
{
    if runs.len() == 0 {
        0
    } else {
        larger(tallest(runs.drop_last()), runs.last().height)
    }
}

/// The line that holds `words[start..end)` from `lead` on.
pub open spec fn line_of(words: Seq<Measured>, start: int, end: int, lead: nat, space: nat) -> Line {
    let runs = place(words, start, end, lead, space);
    Line { runs, width: right_edge(runs, lead), height: tallest(runs) }
}

/// The lines that the words from `start` on fall into, the first of them
/// beginning at `lead` and the others at the left edge.
pub open spec fn lines_from(
    words: Seq<Measured>,
    start: int,
    lead: nat,
    space: nat,
    max: nat,
) -> Seq<Line>
    decreases words.len() - start,
    via lines_from_decreases
{
    if start < 0 || start >= words.len() {
        Seq::empty()
    } else {
        let end = line_end(words, start + 1, lead + words[start].width, space, max);
        seq![line_of(words, start, end, lead, space)] + lines_from(words, end, 0, space, max)
    }
}

#[via_fn]
proof fn lines_from_decreases(words: Seq<Measured>, start: int, lead: nat, space: nat, max: nat) {
    if 0 <= start < words.len() {
        lemma_line_end_bounds(words, start + 1, lead + words[start].width, space, max);
    }
}

/// A line stops at or after the word it was asked to go on from, and within
/// the words.
pub proof fn lemma_line_end_bounds(
    words: Seq<Measured>,
    next: int,
    right: nat,
    space: nat,
    max: nat,
)
    requires
        0 <= next <= words.len(),
    ensures
        next <= line_end(words, next, right, space, max) <= words.len(),
    decreases words.len() - next,
{
    if next < words.len() && right + space + words[next].width <= max {
        lemma_line_end_bounds(words, next + 1, right + space + words[next].width, space, max);
    }
}

/// The lines of a layout: the wrapped words behind a keyword of width `lead`,
/// or, where there is no word, one line that holds the keyword alone.
pub open spec fn lines_of(words: Seq<Measured>, lead: nat, space: nat, max: nat) -> Seq<Line> {
    if words.len() == 0 {
        seq![Line { runs: Seq::empty(), width: lead, height: 0 }]
    } else {
        lines_from(words, 0, lead, space, max)
    }
}

/// The distance from the top of the canvas to the top of line `k`: the first
/// line is as tall as the taller of itself and the keyword, each other line as
/// tall as itself. With `k` the number of lines, this is the canvas height.
pub open spec fn line_top(keyword_height: nat, lines: Seq<Line>, k: int) -> nat
    decreases k,
{
    if k <= 0 {
        0
    } else if k == 1 {
        larger(keyword_height, lines[0].height)
    } else {
        line_top(keyword_height, lines, k - 1) + lines[k - 1].height
    }
}

/// The layout of a keyword of the given box and the measured words of its
/// explanation, one `space` apart, on a canvas `max` wide.
pub open spec fn page(
    keyword: Seq<char>,
    keyword_width: nat,
    keyword_height: nat,
    words: Seq<Measured>,
    space: nat,
    max: nat,
) -> Page {
    let lines = lines_of(words, keyword_width, space, max);
    Page {
        keyword,
        keyword_width,
        keyword_height,
        lines,
        canvas_width: max,
        canvas_height: line_top(keyword_height, lines, lines.len() as int),
    }
}

/// A page is stacked when its canvas is exactly as high as its lines, one
/// below the other, the first at least as high as the keyword.
pub open spec fn stacked(p: Page) -> bool {
    p.canvas_height == line_top(p.keyword_height, p.lines, p.lines.len() as int)
}

/// Whether every pixel measure of the page fits in 32 bits.
pub open spec fn fits_pixels(p: Page) -> bool {
    &&& p.canvas_height <= u32::MAX
    &&& forall|k: int| 0 <= k < p.lines.len() ==> (#[trigger] p.lines[k]).width <= u32::MAX
}

/// Placing `words[start..end)` gives one run for each word, with the word's
/// run and box.
pub proof fn lemma_place_words(
    words: Seq<Measured>,
    start: int,
    end: int,
    lead: nat,
    space: nat,
)
    requires
        0 <= start <= end <= words.len(),
    ensures
        place(words, start, end, lead, space).len() == end - start,
        forall|j: int|
            0 <= j < end - start ==> {
                let p = #[trigger] place(words, start, end, lead, space)[j];
                &&& p.run == words[start + j].run
                &&& p.width == words[start + j].width
                &&& p.height == words[start + j].height
            },
    decreases end - start,
{
    if end > start {
        lemma_place_words(words, start, end - 1, lead, space);
    }
}

/// Runs are placed by summing widths from the left: the first at `lead`, each
/// other one a space behind the one before it.
pub proof fn lemma_place_offsets(
    words: Seq<Measured>,
    start: int,
    end: int,
    lead: nat,
    space: nat,
)
    requires
        0 <= start <= end <= words.len(),
    ensures
        forall|j: int|
            0 <= j < end - start ==> (#[trigger] place(words, start, end, lead, space)[j]).x == (if j
                == 0 {
                lead
            } else {
                place(words, start, end, lead, space)[j - 1].x + place(
                    words,
                    start,
                    end,
                    lead,
                    space,
                )[j - 1].width + space
            }),
    decreases end - start,
{
    if end > start {
        lemma_place_words(words, start, end - 1, lead, space);
        lemma_place_offsets(words, start, end - 1, lead, space);
    }
}

/// What the greedy choice of a line's end means for the line: once a second
/// word has gone on it, it ends within `max`; and the word after it, if there
/// is one, would have ended beyond `max`.
proof fn lemma_line_end_greedy(
    words: Seq<Measured>,
    start: int,
    next: int,
    right: nat,
    lead: nat,
    space: nat,
    max: nat,
)
    requires
        0 <= start < next <= words.len(),
        right == right_edge(place(words, start, next, lead, space), lead),
    ensures
        ({
            let end = line_end(words, next, right, space, max);
            let reach = right_edge(place(words, start, end, lead, space), lead);
            &&& next <= end <= words.len()
            &&& end > next ==> reach <= max
            &&& end == next ==> reach == right
            &&& end < words.len() ==> reach + space + words[end].width > max
        }),
    decreases words.len() - next,
{
    if next < words.len() && right + space + words[next].width <= max {
        lemma_place_words(words, start, next, lead, space);
        lemma_line_end_greedy(
            words,
            start,
            next + 1,
            right + space + words[next].width,
            lead,
            space,
            max,
        );
    }
}

/// The line that starts at word `start`: it holds at least that word, ends
/// within `max` unless it holds one word only, and stops where the next word
/// would have ended beyond `max`.
proof fn lemma_first_line(words: Seq<Measured>, start: int, lead: nat, space: nat, max: nat)
    requires
        0 <= start < words.len(),
    ensures
        ({
            let end = line_end(words, start + 1, lead + words[start].width, space, max);
            let line = line_of(words, start, end, lead, space);
            &&& start < end <= words.len()
            &&& line.runs.len() == end - start
            &&& line.width <= max || line.runs.len() == 1
            &&& end < words.len() ==> line.width + space + words[end].width > max
        }),
{
    let one = place(words, start, start + 1, lead, space);
    assert(place(words, start, start, lead, space) =~= Seq::<Placed>::empty());
    assert(right_edge(one, lead) == lead + words[start].width);
    lemma_line_end_greedy(words, start, start + 1, lead + words[start].width, lead, space, max);
    let end = line_end(words, start + 1, lead + words[start].width, space, max);
    lemma_place_words(words, start, end, lead, space);
}

proof fn lemma_lines_from_budget(words: Seq<Measured>, start: int, lead: nat, space: nat, max: nat)
    requires
        0 <= start <= words.len(),
    ensures
        forall|k: int|
            0 <= k < lines_from(words, start, lead, space, max).len() ==> {
                let line = #[trigger] lines_from(words, start, lead, space, max)[k];
                &&& line.runs.len() >= 1
                &&& line.width <= max || line.runs.len() == 1
            },
    decreases words.len() - start,
{
    if start < words.len() {
        let end = line_end(words, start + 1, lead + words[start].width, space, max);
        lemma_first_line(words, start, lead, space, max);
        lemma_lines_from_budget(words, end, 0, space, max);
        let first = line_of(words, start, end, lead, space);
        let rest = lines_from(words, end, 0, space, max);
        assert forall|k: int| 0 <= k < lines_from(words, start, lead, space, max).len() implies {
            let line = #[trigger] lines_from(words, start, lead, space, max)[k];
            &&& line.runs.len() >= 1
            &&& line.width <= max || line.runs.len() == 1
        } by {
            if k > 0 {
                assert(lines_from(words, start, lead, space, max)[k] == rest[k - 1]);
            }
        }
    }
}

/// Every line of a layout ends within the canvas width, except a line that
/// holds a single run which alone reaches beyond it. (A keyword with no
/// explanation is the one line left out where the keyword itself is wider
/// than the canvas.)
pub proof fn lemma_wrap_budget(words: Seq<Measured>, lead: nat, space: nat, max: nat)
    requires
        words.len() > 0 || lead <= max,
    ensures
        forall|k: int|
            0 <= k < lines_of(words, lead, space, max).len() ==> {
                let line = #[trigger] lines_of(words, lead, space, max)[k];
                line.width <= max || line.runs.len() == 1
            },
{
    if words.len() > 0 {
        lemma_lines_from_budget(words, 0, lead, space, max);
    }
}

/// With at least one word, every line of a layout holds at least one run.
pub proof fn lemma_no_empty_line(words: Seq<Measured>, lead: nat, space: nat, max: nat)
    requires
        words.len() > 0,
    ensures
        lines_of(words, lead, space, max).len() >= 1,
        forall|k: int|
            0 <= k < lines_of(words, lead, space, max).len() ==> (#[trigger] lines_of(
                words,
                lead,
                space,
                max,
            )[k]).runs.len() >= 1,
{
    lemma_lines_from_budget(words, 0, lead, space, max);
    lemma_first_line(words, 0, lead, space, max);
}

/// Line `k` could not take the first word of the line below it: a space
/// behind the line, that word would end beyond `max`.
pub open spec fn breaks_late(lines: Seq<Line>, k: int, space: nat, max: nat) -> bool {
    &&& lines[k + 1].runs.len() >= 1
    &&& lines[k].width + space + lines[k + 1].runs[0].width > max
}

proof fn lemma_lines_from_greedy(words: Seq<Measured>, start: int, lead: nat, space: nat, max: nat)
    requires
        0 <= start <= words.len(),
    ensures
        start < words.len() ==> lines_from(words, start, lead, space, max).len() >= 1
            && lines_from(words, start, lead, space, max)[0].runs.len() >= 1
            && lines_from(words, start, lead, space, max)[0].runs[0].width == words[start].width,
        forall|k: int|
            0 <= k && k + 1 < lines_from(words, start, lead, space, max).len() ==> #[trigger] breaks_late(
                lines_from(words, start, lead, space, max),
                k,
                space,
                max,
            ),
    decreases words.len() - start,
{
    if start < words.len() {
        let end = line_end(words, start + 1, lead + words[start].width, space, max);
        lemma_first_line(words, start, lead, space, max);
        lemma_place_words(words, start, end, lead, space);
        lemma_lines_from_greedy(words, end, 0, space, max);
        let lines = lines_from(words, start, lead, space, max);
        let first = line_of(words, start, end, lead, space);
        let rest = lines_from(words, end, 0, space, max);
        assert(first.runs[0].width == words[start].width);
        assert forall|k: int| 0 <= k && k + 1 < lines.len() implies #[trigger] breaks_late(
            lines,
            k,
            space,
            max,
        ) by {
            if k == 0 {
                assert(lines[1] == rest[0]);
            } else {
                assert(lines[k] == rest[k - 1]);
                assert(lines[k + 1] == rest[k]);
                assert(breaks_late(rest, k - 1, space, max));
            }
        }
    }
}

/// A line is as full as it can be: the first word of the line below it would
/// have ended beyond the canvas width.
pub proof fn lemma_lines_are_full(words: Seq<Measured>, lead: nat, space: nat, max: nat)
    ensures
        forall|k: int|
            0 <= k && k + 1 < lines_of(words, lead, space, max).len() ==> #[trigger] breaks_late(
                lines_of(words, lead, space, max),
                k,
                space,
                max,
            ),
{
    if words.len() > 0 {
        lemma_lines_from_greedy(words, 0, lead, space, max);
    }
}

/// The measured word that a placed run holds.
pub open spec fn word_at(p: Placed) -> Measured {
    Measured { run: p.run, width: p.width, height: p.height }
}

/// The words of the lines, line after line and left to right.
pub open spec fn words_on(lines: Seq<Line>) -> Seq<Measured>
    decreases lines.len(),
{
    if lines.len() == 0 {
        Seq::empty()
    } else {
        words_on(lines.drop_last()) + Seq::new(
            lines.last().runs.len(),
            |j: int| word_at(lines.last().runs[j]),
        )
    }
}

proof fn lemma_words_on_front(first: Line, rest: Seq<Line>)
    ensures
        words_on(seq![first] + rest) == Seq::new(first.runs.len(), |j: int| word_at(first.runs[j]))
            + words_on(rest),
    decreases rest.len(),
{
    let head = Seq::new(first.runs.len(), |j: int| word_at(first.runs[j]));
    if rest.len() == 0 {
        assert(seq![first] + rest =~= seq![first]);
        assert(seq![first].drop_last() =~= Seq::<Line>::empty());
        assert(words_on(Seq::<Line>::empty()) =~= Seq::<Measured>::empty());
        assert(seq![first].last() == first);
        assert(words_on(seq![first]) =~= head);
        assert(head + words_on(rest) =~= head);
    } else {
        let all = seq![first] + rest;
        assert(all.drop_last() =~= seq![first] + rest.drop_last());
        assert(all.last() == rest.last());
        lemma_words_on_front(first, rest.drop_last());
        let tail = Seq::new(rest.last().runs.len(), |j: int| word_at(rest.last().runs[j]));
        assert(head + words_on(rest.drop_last()) + tail =~= head + (words_on(rest.drop_last())
            + tail));
    }
}

proof fn lemma_lines_from_words(words: Seq<Measured>, start: int, lead: nat, space: nat, max: nat)
    requires
        0 <= start <= words.len(),
    ensures
        words_on(lines_from(words, start, lead, space, max)) == words.subrange(
            start,
            words.len() as int,
        ),
    decreases words.len() - start,
{
    let n = words.len() as int;
    if start < n {
        let end = line_end(words, start + 1, lead + words[start].width, space, max);
        lemma_first_line(words, start, lead, space, max);
        lemma_place_words(words, start, end, lead, space);
        lemma_lines_from_words(words, end, 0, space, max);
        let first = line_of(words, start, end, lead, space);
        let rest = lines_from(words, end, 0, space, max);
        lemma_words_on_front(first, rest);
        let head = Seq::new(first.runs.len(), |j: int| word_at(first.runs[j]));
        assert(head =~= words.subrange(start, end));
        assert(words.subrange(start, end) + words.subrange(end, n) =~= words.subrange(start, n));
    } else {
        assert(words.subrange(start, n) =~= Seq::<Measured>::empty());
    }
}

/// The lines of a layout hold the words in their order, each once, with the
/// boxes they were measured to take: lines break between words only.
pub proof fn lemma_lines_keep_words(words: Seq<Measured>, lead: nat, space: nat, max: nat)
    ensures
        words_on(lines_of(words, lead, space, max)) == words,
{
    if words.len() > 0 {
        lemma_lines_from_words(words, 0, lead, space, max);
        assert(words.subrange(0, words.len() as int) =~= words);
    } else {
        let only = Line { runs: Seq::empty(), width: lead, height: 0 };
        assert(seq![only].drop_last() =~= Seq::<Line>::empty());
        assert(words_on(Seq::<Line>::empty()) =~= Seq::<Measured>::empty());
        assert(seq![only].last() == only);
        assert(words_on(seq![only]) =~= Seq::<Measured>::empty());
        assert(words =~= Seq::<Measured>::empty());
    }
}

/// The heights of the lines, added up.
pub open spec fn heights(lines: Seq<Line>) -> nat
    decreases lines.len(),
{
    if lines.len() == 0 {
        0
    } else {
        heights(lines.drop_last()) + lines.last().height
    }
}

proof fn lemma_line_top_sum(keyword_height: nat, lines: Seq<Line>, k: int)
    requires
        1 <= k <= lines.len(),
    ensures
        line_top(keyword_height, lines, k) == larger(keyword_height, lines[0].height) + heights(
            lines.subrange(1, k),
        ),
    decreases k,
{
    if k == 1 {
        assert(lines.subrange(1, 1) =~= Seq::<Line>::empty());
    } else {
        lemma_line_top_sum(keyword_height, lines, k - 1);
        assert(lines.subrange(1, k).drop_last() =~= lines.subrange(1, k - 1));
        assert(lines.subrange(1, k).last() == lines[k - 1]);
    }
}

/// The canvas is as high as the taller of the keyword and the first line,
/// plus the heights of all the lines below the first.
pub proof fn lemma_canvas_height(
    keyword: Seq<char>,
    keyword_width: nat,
    keyword_height: nat,
    words: Seq<Measured>,
    space: nat,
    max: nat,
)
    ensures
        ({
            let p = page(keyword, keyword_width, keyword_height, words, space, max);
            &&& p.lines.len() >= 1
            &&& p.canvas_width == max
            &&& p.canvas_height == larger(keyword_height, p.lines[0].height) + heights(
                p.lines.drop_first(),
            )
        }),
{
    let p = page(keyword, keyword_width, keyword_height, words, space, max);
    if words.len() > 0 {
        lemma_no_empty_line(words, keyword_width, space, max);
    }
    lemma_line_top_sum(keyword_height, p.lines, p.lines.len() as int);
    assert(p.lines.subrange(1, p.lines.len() as int) =~= p.lines.drop_first());
}

/// With no explanation the layout is one line without runs, and the canvas
/// is as high as the keyword.
pub proof fn lemma_keyword_alone(
    keyword: Seq<char>,
    keyword_width: nat,
    keyword_height: nat,
    space: nat,
    max: nat,
)
    ensures
        ({
            let p = page(keyword, keyword_width, keyword_height, Seq::empty(), space, max);
            &&& p.lines.len() == 1
            &&& p.lines[0].runs.len() == 0
            &&& p.lines[0].width == keyword_width
            &&& p.canvas_width == max
            &&& p.canvas_height == keyword_height
        }),
{
}

/// The heights of the words `words[start..end)`, added up.
pub open spec fn height_sum(words: Seq<Measured>, start: int, end: int) -> nat
    decreases end - start,
{
    if end <= start {
        0
    } else {
        height_sum(words, start, end - 1) + words[end - 1].height
    }
}

proof fn lemma_height_sum_split(words: Seq<Measured>, start: int, mid: int, end: int)
    requires
        start <= mid <= end,
    ensures
        height_sum(words, start, end) == height_sum(words, start, mid) + height_sum(
            words,
            mid,
            end,
        ),
    decreases end - mid,
{
    if mid < end {
        lemma_height_sum_split(words, start, mid, end - 1);
    }
}

proof fn lemma_tallest_bound(words: Seq<Measured>, start: int, end: int, lead: nat, space: nat)
    requires
        0 <= start <= end <= words.len(),
    ensures
        tallest(place(words, start, end, lead, space)) <= height_sum(words, start, end),
    decreases end - start,
{
    if start < end {
        lemma_tallest_bound(words, start, end - 1, lead, space);
        let runs = place(words, start, end, lead, space);
        assert(runs.drop_last() =~= place(words, start, end - 1, lead, space));
    }
}

proof fn lemma_heights_front(first: Line, rest: Seq<Line>)
    ensures
        heights(seq![first] + rest) == first.height + heights(rest),
    decreases rest.len(),
{
    let all = seq![first] + rest;
    if rest.len() == 0 {
        assert(all.drop_last() =~= Seq::<Line>::empty());
        assert(heights(Seq::<Line>::empty()) == 0);
        assert(all.last() == first);
    } else {
        assert(all.drop_last() =~= seq![first] + rest.drop_last());
        assert(all.last() == rest.last());
        lemma_heights_front(first, rest.drop_last());
    }
}

proof fn lemma_lines_from_heights(
    words: Seq<Measured>,
    start: int,
    lead: nat,
    space: nat,
    max: nat,
)
    requires
        0 <= start <= words.len(),
    ensures
        heights(lines_from(words, start, lead, space, max)) <= height_sum(
            words,
            start,
            words.len() as int,
        ),
    decreases words.len() - start,
{
    let n = words.len() as int;
    if start < n {
        let end = line_end(words, start + 1, lead + words[start].width, space, max);
        lemma_line_end_bounds(words, start + 1, lead + words[start].width, space, max);
        lemma_tallest_bound(words, start, end, lead, space);
        lemma_lines_from_heights(words, end, 0, space, max);
        lemma_heights_front(
            line_of(words, start, end, lead, space),
            lines_from(words, end, 0, space, max),
        );
        lemma_height_sum_split(words, start, end, n);
    } else {
        assert(heights(Seq::<Line>::empty()) == 0);
    }
}

proof fn lemma_lines_from_run_widths(
    words: Seq<Measured>,
    start: int,
    lead: nat,
    space: nat,
    max: nat,
    bound: nat,
)
    requires
        0 <= start <= words.len(),
        forall|i: int| 0 <= i < words.len() ==> (#[trigger] words[i]).width <= bound,
    ensures
        forall|k: int, j: int|
            0 <= k < lines_from(words, start, lead, space, max).len() && 0 <= j < lines_from(
                words,
                start,
                lead,
                space,
                max,
            )[k].runs.len() ==> (#[trigger] lines_from(words, start, lead, space, max)[k].runs[j]).width
                <= bound,
    decreases words.len() - start,
{
    if start < words.len() {
        let end = line_end(words, start + 1, lead + words[start].width, space, max);
        lemma_line_end_bounds(words, start + 1, lead + words[start].width, space, max);
        lemma_place_words(words, start, end, lead, space);
        lemma_lines_from_run_widths(words, end, 0, space, max, bound);
        let lines = lines_from(words, start, lead, space, max);
        let rest = lines_from(words, end, 0, space, max);
        assert forall|k: int, j: int|
            0 <= k < lines.len() && 0 <= j < lines[k].runs.len() implies (#[trigger] lines[k].runs[j]).width
            <= bound by {
            if k > 0 {
                assert(lines[k] == rest[k - 1]);
            } else {
                assert(lines[0].runs[j].width == words[start + j].width);
            }
        }
    }
}

/// A layout fits in 32 bits where the canvas width does, the keyword and the
/// first word side by side do, and the heights of the keyword and of all the
/// words, added up, do.
pub proof fn lemma_small_layout_fits(
    keyword: Seq<char>,
    keyword_width: nat,
    keyword_height: nat,
    words: Seq<Measured>,
    space: nat,
    max: nat,
)
    requires
        max <= u32::MAX,
        keyword_width <= u32::MAX,
        forall|i: int| 0 <= i < words.len() ==> (#[trigger] words[i]).width <= u32::MAX,
        words.len() > 0 ==> keyword_width + words[0].width <= u32::MAX,
        keyword_height + height_sum(words, 0, words.len() as int) <= u32::MAX,
    ensures
        fits_pixels(page(keyword, keyword_width, keyword_height, words, space, max)),
{
    let p = page(keyword, keyword_width, keyword_height, words, space, max);
    lemma_canvas_height(keyword, keyword_width, keyword_height, words, space, max);
    if words.len() > 0 {
        lemma_lines_from_budget(words, 0, keyword_width, space, max);
        lemma_lines_from_placed(words, 0, keyword_width, space, max);
        lemma_lines_from_heights(words, 0, keyword_width, space, max);
        lemma_lines_from_greedy(words, 0, keyword_width, space, max);
        lemma_lines_from_run_widths(words, 0, keyword_width, space, max, u32::MAX as nat);
        let first = p.lines[0];
        let rest = p.lines.drop_first();
        assert(p.lines =~= seq![first] + rest);
        lemma_heights_front(first, rest);
        assert forall|k: int| 0 <= k < p.lines.len() implies (#[trigger] p.lines[k]).width
            <= u32::MAX by {
            let line = p.lines[k];
            assert(line_is_placed(line, if k == 0 { keyword_width } else { 0 }, space));
            if line.width > max {
                assert(line.runs.len() == 1);
                assert(line.runs[0].width <= u32::MAX);
                assert(line.width == line.runs[0].x + line.runs[0].width);
                if k == 0 {
                    assert(line.runs[0].width == words[0].width);
                }
            }
        }
    } else {
        assert(p.lines.drop_first() =~= Seq::<Line>::empty());
        assert(heights(Seq::<Line>::empty()) == 0);
    }
}

/// Within each line of a layout the runs stand left to right, the first at
/// the keyword's right edge on the first line and at the left edge on the
/// others, each other run one space behind the run before it; the line is as
/// wide as its last run reaches and as high as its tallest run.
pub open spec fn line_is_placed(line: Line, lead: nat, space: nat) -> bool {
    &&& forall|j: int|
        0 <= j < line.runs.len() ==> (#[trigger] line.runs[j]).x == (if j == 0 {
            lead
        } else {
            line.runs[j - 1].x + line.runs[j - 1].width + space
        })
    &&& line.width == right_edge(line.runs, lead)
    &&& line.height == tallest(line.runs)
}

proof fn lemma_lines_from_placed(words: Seq<Measured>, start: int, lead: nat, space: nat, max: nat)
    requires
        0 <= start <= words.len(),
    ensures
        forall|k: int|
            0 <= k < lines_from(words, start, lead, space, max).len() ==> line_is_placed(
                #[trigger] lines_from(words, start, lead, space, max)[k],
                if k == 0 {
                    lead
                } else {
                    0
                },
                space,
            ),
    decreases words.len() - start,
{
    if start < words.len() {
        let end = line_end(words, start + 1, lead + words[start].width, space, max);
        lemma_first_line(words, start, lead, space, max);
        lemma_place_words(words, start, end, lead, space);
        lemma_place_offsets(words, start, end, lead, space);
        lemma_lines_from_placed(words, end, 0, space, max);
        let lines = lines_from(words, start, lead, space, max);
        let rest = lines_from(words, end, 0, space, max);
        assert forall|k: int| 0 <= k < lines.len() implies line_is_placed(
            #[trigger] lines[k],
            if k == 0 {
                lead
            } else {
                0
            },
            space,
        ) by {
            if k > 0 {
                assert(lines[k] == rest[k - 1]);
            }
        }
    }
}

/// Every line of a layout is placed as [`line_is_placed`] says.
pub proof fn lemma_lines_are_placed(words: Seq<Measured>, lead: nat, space: nat, max: nat)
    ensures
        forall|k: int|
            0 <= k < lines_of(words, lead, space, max).len() ==> line_is_placed(
                #[trigger] lines_of(words, lead, space, max)[k],
                if k == 0 {
                    lead
                } else {
                    0
                },
                space,
            ),
{
    if words.len() > 0 {
        lemma_lines_from_placed(words, 0, lead, space, max);
    }
}

/// The top of a line depends only on the lines above it.
pub proof fn lemma_line_top_prefix(keyword_height: nat, above: Seq<Line>, below: Seq<Line>, k: int)
    requires
        0 <= k <= above.len(),
    ensures
        line_top(keyword_height, above + below, k) == line_top(keyword_height, above, k),
    decreases k,
{
    if k >= 1 {
        assert((above + below)[k - 1] == above[k - 1]);
        if k >= 2 {
            lemma_line_top_prefix(keyword_height, above, below, k - 1);
        } else {
            assert((above + below)[0] == above[0]);
        }
    }
}

/// Lines lie below one another: a later line's top is no higher.
pub proof fn lemma_line_top_grows(keyword_height: nat, lines: Seq<Line>, j: int, k: int)
    requires
        0 <= j <= k,
    ensures
        line_top(keyword_height, lines, j) <= line_top(keyword_height, lines, k),
    decreases k - j,
{
    if j < k {
        lemma_line_top_grows(keyword_height, lines, j, k - 1);
    }
}

/// Lays out a keyword and the measured words of its explanation on a canvas
/// `max_width_px` wide.
///
/// The keyword, whose box is `keyword_extent`, stands at the left of the first
/// line. The words follow in order, `space_width` apart; a line is full when
/// the next word would end beyond `max_width_px`, and every line holds at
/// least one word, however wide. With no words the layout is one line that
/// holds the keyword alone. The canvas is `max_width_px` wide, and as high as
/// the lines stacked, the first of them at least as high as the keyword.
///
/// Returns `None` exactly when a width or the height of that layout does not
/// fit in 32 bits.
pub fn layout(
    keyword: &str,
    keyword_extent: Extent,
    words: &Vec<Word>,
    space_width: u32,
    max_width_px: u32,
) -> (result: Option<Layout>)
    ensures
        result is Some <==> fits_pixels(
            page(
                keyword@,
                keyword_extent.width as nat,
                keyword_extent.height as nat,
                measured_of(words@),
                space_width as nat,
                max_width_px as nat,
            ),
        ),
        result matches Some(l) ==> l@ == page(
            keyword@,
            keyword_extent.width as nat,
            keyword_extent.height as nat,
            measured_of(words@),
            space_width as nat,
            max_width_px as nat,
        ) && stacked(l@),
{
    let ghost ws = measured_of(words@);
    let ghost kw = keyword_extent.width as nat;
    let ghost kh = keyword_extent.height as nat;
    let ghost space = space_width as nat;
    let ghost max = max_width_px as nat;
    let ghost target = page(keyword@, kw, kh, ws, space, max);
    let n = words.len();
    let mut lines: Vec<MeasuredLine> = Vec::new();
    if n == 0 {
        let only = MeasuredLine {
            runs: Vec::new(),
            pixel_width: keyword_extent.width,
            pixel_height: 0,
        };
        assert(only@.runs =~= Seq::<Placed>::empty());
        lines.push(only);
        let l = Layout {
            keyword: keyword.to_owned(),
            keyword_extent,
            lines,
            canvas_width: max_width_px,
            canvas_height: keyword_extent.height,
        };
        assert(l@.lines =~= target.lines);
        return Some(l);
    }
    let ghost full = lines_from(ws, 0, kw, space, max);
    let mut start: usize = 0;
    let mut lead: u32 = keyword_extent.width;
    let mut top: u32 = 0;
    assert(lines_view(lines@) + lines_from(ws, 0, kw, space, max) =~= full);
    while start < n
        invariant
            n == words.len(),
            n > 0,
            ws == measured_of(words@),
            kw == keyword_extent.width,
            kh == keyword_extent.height,
            space == space_width,
            max == max_width_px,
            full == lines_from(ws, 0, kw, space, max),
            target == page(keyword@, kw, kh, ws, space, max),
            start <= n,
            lead == if start == 0 { keyword_extent.width } else { 0 },
            (start == 0) == (lines.len() == 0),
            lines_view(lines@) + lines_from(ws, start as int, lead as nat, space, max) == full,
            top == line_top(kh, lines_view(lines@), lines.len() as int),
        decreases n - start,
    {
        let ghost above = lines_view(lines@);
        let ghost end = line_end(ws, start + 1, lead as nat + ws[start as int].width, space, max);
        let ghost this_line = line_of(ws, start as int, end, lead as nat, space);
        let ghost below = lines_from(ws, end, 0, space, max);
        proof {
            lemma_line_end_bounds(ws, start + 1, lead as nat + ws[start as int].width, space, max);
            assert(above + (seq![this_line] + below) =~= above + seq![this_line] + below);
            assert(full == above + seq![this_line] + below);
            assert(full[above.len() as int] == this_line);
            assert(target.lines == full);
        }
        let first = &words[start];
        let reach: u64 = lead as u64 + first.extent.width as u64;
        if reach > u32::MAX as u64 {
            proof {
                assert(end == start + 1);
                let none = place(ws, start as int, start as int, lead as nat, space);
                assert(none =~= Seq::<Placed>::empty());
                assert(this_line.width == reach);
            }
            return None;
        }
        let mut runs: Vec<PlacedRun> = Vec::new();
        let placed = PlacedRun { item: first.item.duplicate(), x: lead, extent: first.extent };
        runs.push(placed);
        let mut right: u32 = reach as u32;
        let mut tall: u32 = first.extent.height;
        let mut next: usize = start + 1;
        proof {
            let none = place(ws, start as int, start as int, lead as nat, space);
            assert(none =~= Seq::<Placed>::empty());
            assert(placed_of(runs@) =~= place(ws, start as int, next as int, lead as nat, space));
            assert(placed_of(runs@).drop_last() =~= Seq::<Placed>::empty());
            assert(tallest(Seq::<Placed>::empty()) == 0);
            assert(tallest(placed_of(runs@)) == larger(0, placed_of(runs@).last().height));
        }
        while next < n && right as u64 + space_width as u64 + words[next].extent.width as u64
            <= max_width_px as u64
            invariant
                n == words.len(),
                ws == measured_of(words@),
                space == space_width,
                max == max_width_px,
                start < next <= n,
                runs@.len() == next - start,
                placed_of(runs@) == place(ws, start as int, next as int, lead as nat, space),
                right == right_edge(placed_of(runs@), lead as nat),
                tall == tallest(placed_of(runs@)),
                line_end(ws, next as int, right as nat, space, max) == end,
            decreases n - next,
        {
            let word = &words[next];
            let x: u32 = right + space_width;
            let placed = PlacedRun { item: word.item.duplicate(), x, extent: word.extent };
            proof {
                let before = placed_of(runs@);
                assert(placed_of(runs@.push(placed)) =~= before.push(placed@));
                assert(before.push(placed@).drop_last() =~= before);
            }
            runs.push(placed);
            right = x + word.extent.width;
            if word.extent.height > tall {
                tall = word.extent.height;
            }
            next += 1;
        }
        assert(end == next);
        let line = MeasuredLine { runs, pixel_width: right, pixel_height: tall };
        assert(line@ == this_line);
        let grown: u64 = if lines.len() == 0 {
            if keyword_extent.height >= tall {
                keyword_extent.height as u64
            } else {
                tall as u64
            }
        } else {
            top as u64 + tall as u64
        };
        proof {
            let k = above.len() as int;
            lemma_line_top_prefix(kh, above, seq![this_line] + below, k);
            lemma_line_top_prefix(kh, above.push(this_line), below, k + 1);
            lemma_line_top_prefix(kh, above, seq![this_line], k);
            assert(above.push(this_line) =~= above + seq![this_line]);
            assert(above.push(this_line)[k] == this_line);
            assert(above.push(this_line) + below =~= full);
            assert(grown == line_top(kh, above.push(this_line), k + 1));
            assert(grown == line_top(kh, full, k + 1));
            lemma_line_top_grows(kh, full, k + 1, full.len() as int);
            assert(lines_view(lines@.push(line)) =~= above.push(this_line));
        }
        if grown > u32::MAX as u64 {
            return None;
        }
        lines.push(line);
        top = grown as u32;
        start = next;
        lead = 0;
    }
    assert(lines_view(lines@) + Seq::<Line>::empty() =~= lines_view(lines@));
    let l = Layout {
        keyword: keyword.to_owned(),
        keyword_extent,
        lines,
        canvas_width: max_width_px,
        canvas_height: top,
    };
    assert(l@ == target);
    Some(l)
}

impl Layout {
    /// Whether the layout is stacked: its canvas exactly as high as its
    /// lines, one below the other, the first at least as high as the keyword.
    pub fn is_stacked(&self) -> (yes: bool)
        ensures
            yes == stacked(self@),
    {
        let ghost kh = self@.keyword_height;
        let ghost lines = self@.lines;
        let count = self.lines.len();
        let mut top: u32 = 0;
        let mut k: usize = 0;
        while k < count
            invariant
                kh == self@.keyword_height,
                lines == self@.lines,
                count == self.lines.len(),
                k <= count,
                top == line_top(kh, lines, k as int),
            decreases count - k,
        {
            let high = self.lines[k].pixel_height;
            assert(lines[k as int].height == high);
            let grown: u64 = if k == 0 {
                if self.keyword_extent.height >= high {
                    self.keyword_extent.height as u64
                } else {
                    high as u64
                }
            } else {
                top as u64 + high as u64
            };
            assert(grown == line_top(kh, lines, k + 1));
            if grown > u32::MAX as u64 {
                proof {
                    lemma_line_top_grows(kh, lines, k + 1, count as int);
                }
                return false;
            }
            top = grown as u32;
            k += 1;
        }
        top == self.canvas_height
    }
}

} // verus!
