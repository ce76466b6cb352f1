//! From a layout to the drawing of it: what to draw, and where.
//!
//! The keyword is drawn in bold at the top left corner. Each line's runs are
//! drawn at their offsets, on the line's top edge: text in its style, a
//! symbol as its artwork scaled to the height of its box. A symbol that the
//! catalogue does not hold fails the whole drawing.

use crate::error::TextError;
use crate::fonts::Style;
use crate::layout::{lemma_line_top_grows, line_top, stacked, Layout, Line, Page, Placed};
use crate::symbols::Symbols;
use crate::text::{Run, TextItem};
use vstd::prelude::*;

verus! {

/// One step of a drawing. `x` and `y` are the distances of the step's top
/// left corner from the top left corner of the canvas.
#[derive(Debug, Clone, PartialEq, Eq)]
pub enum DrawOp {
    /// Draw `text` in `style`.
    Text { style: Style, text: String, x: u32, y: u32 },
    /// Draw the artwork of the symbol `name`, `size` pixels high.
    Symbol { name: String, x: u32, y: u32, size: u32 },
}

/// The mathematical value of a [`DrawOp`].
pub enum Stroke {
    Text { style: Style, text: Seq<char>, x: nat, y: nat },
    Symbol { name: Seq<char>, x: nat, y: nat, size: nat },
}

impl View for DrawOp {
    type V = Stroke;

    open spec fn view(&self) -> Stroke {
        match self {
            DrawOp::Text { style, text, x, y } => Stroke::Text {
                style: *style,
                text: text@,
                x: *x as nat,
                y: *y as nat,
            },
            DrawOp::Symbol { name, x, y, size } => Stroke::Symbol {
                name: name@,
                x: *x as nat,
                y: *y as nat,
                size: *size as nat,
            },
        }
    }
}

/// The strokes that a vector of drawing steps stands for.
pub open spec fn strokes_of(ops: Seq<DrawOp>) -> Seq<Stroke> {
    Seq::new(ops.len(), |i: int| ops[i]@)
}

/// A canvas size and the steps that draw on it, in order.
#[derive(Debug, Clone, PartialEq, Eq)]
pub struct Drawing {
    pub width: u32,
    pub height: u32,
    pub ops: Vec<DrawOp>,
}

/// The mathematical value of a [`Drawing`].
pub struct Picture {
    pub width: nat,
    pub height: nat,
    pub strokes: Seq<Stroke>,
}

impl View for Drawing {
    type V = Picture;

    open spec fn view(&self) -> Picture {
        Picture {
            width: self.width as nat,
            height: self.height as nat,
            strokes: strokes_of(self.ops@),
        }
    }
}

/// The stroke that draws a placed run on a line whose top is at `y`.
pub open spec fn stroke_of(p: Placed, y: nat) -> Stroke {
    match p.run {
        Run::Regular(t) => Stroke::Text { style: Style::Regular, text: t, x: p.x, y },
        Run::Italic(t) => Stroke::Text { style: Style::Italic, text: t, x: p.x, y },
        Run::Symbol(n) => Stroke::Symbol { name: n, x: p.x, y, size: p.height },
    }
}

/// The strokes that draw the first `upto` runs of a line whose top is at `y`.
pub open spec fn line_strokes(line: Line, y: nat, upto: int) -> Seq<Stroke> {
    Seq::new(
        if upto >= 0 {
            upto as nat
        } else {
            0
        },
        |j: int| stroke_of(line.runs[j], y),
    )
}

/// The strokes that draw the first `k` lines, each line at its top.
pub open spec fn lines_strokes(keyword_height: nat, lines: Seq<Line>, k: int) -> Seq<Stroke>
    decreases k,
{
    if k <= 0 {
        Seq::empty()
    } else {
        lines_strokes(keyword_height, lines, k - 1) + line_strokes(
            lines[k - 1],
            line_top(keyword_height, lines, k - 1),
            lines[k - 1].runs.len() as int,
        )
    }
}

/// The stroke that draws the keyword: bold, at the top left corner.
pub open spec fn keyword_stroke(keyword: Seq<char>) -> Stroke {
    Stroke::Text { style: Style::Bold, text: keyword, x: 0, y: 0 }
}

/// The picture of a page: the keyword, then the lines from the top down,
/// each from left to right, on a canvas of the page's size.
pub open spec fn picture(p: Page) -> Picture {
    Picture {
        width: p.canvas_width,
        height: p.canvas_height,
        strokes: seq![keyword_stroke(p.keyword)] + lines_strokes(
            p.keyword_height,
            p.lines,
            p.lines.len() as int,
        ),
    }
}

/// Whether a stroke asks for a symbol that the catalogue does not hold.
pub open spec fn unknown(s: Stroke, symbols: Symbols) -> bool {
    s matches Stroke::Symbol { name, .. } && !symbols.knows(name)
}

/// Whether stroke `i` is the first that asks for a symbol that the catalogue
/// does not hold.
pub open spec fn first_unknown(strokes: Seq<Stroke>, symbols: Symbols, i: int) -> bool {
    &&& 0 <= i < strokes.len()
    &&& unknown(strokes[i], symbols)
    &&& forall|j: int| 0 <= j < i ==> !unknown(#[trigger] strokes[j], symbols)
}

/// The strokes of the first `k` lines begin the strokes of the first `m`.
proof fn lemma_lines_strokes_prefix(keyword_height: nat, lines: Seq<Line>, k: int, m: int)
    requires
        0 <= k <= m,
    ensures
        lines_strokes(keyword_height, lines, k).len() <= lines_strokes(
            keyword_height,
            lines,
            m,
        ).len(),
        forall|i: int|
            0 <= i < lines_strokes(keyword_height, lines, k).len() ==> lines_strokes(
                keyword_height,
                lines,
                k,
            )[i] == #[trigger] lines_strokes(keyword_height, lines, m)[i],
    decreases m - k,
{
    if k < m {
        lemma_lines_strokes_prefix(keyword_height, lines, k, m - 1);
    }
}

/// The strokes of the first `k` lines and of the first `j` runs of the next
/// line begin the strokes of all the lines.
proof fn lemma_partial_strokes(keyword_height: nat, lines: Seq<Line>, k: int, j: int)
    requires
        0 <= k < lines.len(),
        0 <= j <= lines[k].runs.len(),
    ensures
        ({
            let part = lines_strokes(keyword_height, lines, k) + line_strokes(
                lines[k],
                line_top(keyword_height, lines, k),
                j,
            );
            let all = lines_strokes(keyword_height, lines, lines.len() as int);
            &&& part.len() <= all.len()
            &&& forall|i: int| 0 <= i < part.len() ==> part[i] == #[trigger] all[i]
            &&& j < lines[k].runs.len() ==> part.len() < all.len() && all[part.len() as int]
                == stroke_of(lines[k].runs[j], line_top(keyword_height, lines, k))
        }),
{
    let top = line_top(keyword_height, lines, k);
    let done = lines_strokes(keyword_height, lines, k);
    let part = done + line_strokes(lines[k], top, j);
    let next = lines_strokes(keyword_height, lines, k + 1);
    let all = lines_strokes(keyword_height, lines, lines.len() as int);
    assert(next == done + line_strokes(lines[k], top, lines[k].runs.len() as int));
    lemma_lines_strokes_prefix(keyword_height, lines, k + 1, lines.len() as int);
    assert forall|i: int| 0 <= i < part.len() implies part[i] == #[trigger] all[i] by {
        assert(part[i] == next[i]);
    }
    if j < lines[k].runs.len() {
        assert(next[part.len() as int] == stroke_of(lines[k].runs[j], top));
    }
}

/// Works out what to draw for a layout, and where.
///
/// The drawing has the canvas size of the layout. It draws the keyword in
/// bold at the top left corner, then line after line from the top down (the
/// second line below the taller of the keyword and the first line), each line
/// from left to right: text runs in their style, symbols as artwork as high
/// as their box.
///
/// Fails with the name of the first symbol, in drawing order, that the
/// catalogue does not hold; nothing is drawn in that case.
pub fn render(layout: &Layout, symbols: &Symbols) -> (result: Result<Drawing, TextError>)
    requires
        stacked(layout@),
    ensures
        result is Ok <==> forall|i: int|
            0 <= i < picture(layout@).strokes.len() ==> !unknown(
                #[trigger] picture(layout@).strokes[i],
                *symbols,
            ),
        result matches Ok(drawing) ==> drawing@ == picture(layout@),
        result matches Err(e) ==> e matches TextError::UnknownSymbol(missing) && exists|i: int|
            {
                &&& #[trigger] first_unknown(picture(layout@).strokes, *symbols, i)
                &&& picture(layout@).strokes[i] matches Stroke::Symbol { name, .. }
                &&& name == missing@
            },
{
    let ghost p = layout@;
    let ghost kh = p.keyword_height;
    let ghost goal = picture(p).strokes;
    let ghost head = seq![keyword_stroke(p.keyword)];
    let count = layout.lines.len();
    let mut ops: Vec<DrawOp> = Vec::new();
    ops.push(DrawOp::Text { style: Style::Bold, text: layout.keyword.clone(), x: 0, y: 0 });
    let mut y: u32 = 0;
    assert(strokes_of(ops@) =~= head + lines_strokes(kh, p.lines, 0));
    let mut k: usize = 0;
    while k < count
        invariant
            p == layout@,
            kh == p.keyword_height,
            goal == picture(p).strokes,
            head == seq![keyword_stroke(p.keyword)],
            count == layout.lines.len(),
            stacked(p),
            k <= count,
            y == line_top(kh, p.lines, k as int),
            strokes_of(ops@) == head + lines_strokes(kh, p.lines, k as int),
            forall|i: int| 0 <= i < ops@.len() ==> !unknown(#[trigger] strokes_of(ops@)[i], *symbols),
        decreases count - k,
    {
        let line = &layout.lines[k];
        let ghost row = p.lines[k as int];
        let ghost done = lines_strokes(kh, p.lines, k as int);
        assert(row == line@);
        assert(strokes_of(ops@) =~= head + done + line_strokes(row, y as nat, 0));
        let mut j: usize = 0;
        while j < line.runs.len()
            invariant
                p == layout@,
                kh == p.keyword_height,
                goal == picture(p).strokes,
                head == seq![keyword_stroke(p.keyword)],
                count == layout.lines.len(),
                k < count,
                line == layout.lines[k as int],
                row == p.lines[k as int],
                row == line@,
                done == lines_strokes(kh, p.lines, k as int),
                y == line_top(kh, p.lines, k as int),
                j <= line.runs.len(),
                strokes_of(ops@) == head + done + line_strokes(row, y as nat, j as int),
                forall|i: int|
                    0 <= i < ops@.len() ==> !unknown(#[trigger] strokes_of(ops@)[i], *symbols),
            decreases line.runs.len() - j,
        {
            let run = &line.runs[j];
            let ghost before = strokes_of(ops@);
            let ghost stroke = stroke_of(row.runs[j as int], y as nat);
            proof {
                lemma_partial_strokes(kh, p.lines, k as int, j as int);
                assert(row.runs[j as int] == run@);
                assert(head + done + line_strokes(row, y as nat, j as int) =~= head + (done
                    + line_strokes(row, y as nat, j as int)));
                assert(goal == head + lines_strokes(kh, p.lines, count as int));
                assert(goal[before.len() as int] == stroke);
                assert forall|i: int| 0 <= i < before.len() implies before[i] == goal[i] by {
                    if i >= 1 {
                        assert(goal[i] == lines_strokes(kh, p.lines, count as int)[i - 1]);
                    }
                }
            }
            let op = match &run.item {
                TextItem::Regular(t) => DrawOp::Text {
                    style: Style::Regular,
                    text: t.clone(),
                    x: run.x,
                    y,
                },
                TextItem::Italic(t) => DrawOp::Text {
                    style: Style::Italic,
                    text: t.clone(),
                    x: run.x,
                    y,
                },
                TextItem::Symbol(n) => {
                    if !symbols.contains(n.as_str()) {
                        proof {
                            assert(first_unknown(goal, *symbols, before.len() as int));
                        }
                        return Err(TextError::UnknownSymbol(n.clone()));
                    }
                    DrawOp::Symbol { name: n.clone(), x: run.x, y, size: run.extent.height }
                },
            };
            proof {
                assert(op@ == stroke);
                assert(strokes_of(ops@.push(op)) =~= before.push(stroke));
                assert(before.push(stroke) =~= head + done + line_strokes(
                    row,
                    y as nat,
                    j + 1,
                ));
            }
            ops.push(op);
            j += 1;
        }
        proof {
            lemma_line_top_grows(kh, p.lines, k + 1, count as int);
            assert(head + done + line_strokes(row, y as nat, row.runs.len() as int) =~= head
                + lines_strokes(kh, p.lines, k + 1));
        }
        if k == 0 {
            y = if layout.keyword_extent.height >= line.pixel_height {
                layout.keyword_extent.height
            } else {
                line.pixel_height
            };
        } else {
            y = y + line.pixel_height;
        }
        k += 1;
    }
    let drawing = Drawing { width: layout.canvas_width, height: layout.canvas_height, ops };
    assert(drawing@.strokes == goal);
    Ok(drawing)
}

} // verus!
