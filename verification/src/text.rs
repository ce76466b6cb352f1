//! Runs of card text and the tokenizer that produces them.
//!
//! Text in braces (`{T}`) is a symbol, text in parentheses is italic, the rest
//! is regular. Parentheses nest; symbols do not.

use vstd::prelude::*;
use vstd::std_specs::iter::IteratorSpec;
use vstd::string::StringExecFns;

verus! {

/// One run of a paragraph: a span of text in one style, or an inline symbol.
#[derive(Debug, Clone, PartialEq, Eq)]
pub enum TextItem {
    Regular(String),
    Italic(String),
    Symbol(String),
}

/// The mathematical value of a [`TextItem`].
pub enum Run {
    Regular(Seq<char>),
    Italic(Seq<char>),
    Symbol(Seq<char>),
}

impl View for TextItem {
    type V = Run;

    open spec fn view(&self) -> Run {
        match self {
            TextItem::Regular(t) => Run::Regular(t@),
            TextItem::Italic(t) => Run::Italic(t@),
            TextItem::Symbol(n) => Run::Symbol(n@),
        }
    }
}

impl TextItem {
    /// A copy of the item.
    pub fn duplicate(&self) -> (copy: TextItem)
        ensures
            copy == *self,
    {
        match self {
            TextItem::Regular(t) => TextItem::Regular(t.clone()),
            TextItem::Italic(t) => TextItem::Italic(t.clone()),
            TextItem::Symbol(n) => TextItem::Symbol(n.clone()),
        }
    }
}

/// The runs that a vector of items stands for.
pub open spec fn runs_of(items: Seq<TextItem>) -> Seq<Run> {
    Seq::new(items.len(), |i: int| items[i]@)
}

/// The position of the first `}` at or after `from`, or the length of `s`
/// where there is none.
pub open spec fn first_close(s: Seq<char>, from: int) -> int
    decreases s.len() - from,
{
    if from >= s.len() {
        s.len() as int
    } else if s[from] == '}' {
        from
    } else {
        first_close(s, from + 1)
    }
}

/// A `{` opens a symbol where a `}` follows it somewhere; otherwise it is an
/// ordinary character.
pub open spec fn opens_symbol(s: Seq<char>, at: int) -> bool {
    0 <= at < s.len() && s[at] == '{' && first_close(s, at + 1) < s.len()
}

/// The run, if any, that the characters `s[start..end)` form when they are
/// emitted at parenthesis depth `depth`.
pub open spec fn pending(s: Seq<char>, start: int, end: int, depth: nat) -> Seq<Run> {
    if start >= end {
        Seq::empty()
    } else if depth > 0 {
        seq![Run::Italic(s.subrange(start, end))]
    } else {
        seq![Run::Regular(s.subrange(start, end))]
    }
}

/// The runs of `s` from `at` on, where `s[start..at)` has been read into the
/// current run and `depth` parentheses are open.
pub open spec fn scan(s: Seq<char>, start: int, at: int, depth: nat) -> Seq<Run>
    decreases s.len() - at,
    via scan_decreases
{
    if at >= s.len() {
        pending(s, start, s.len() as int, depth)
    } else if opens_symbol(s, at) {
        let close = first_close(s, at + 1);
        let symbol = Run::Symbol(s.subrange(at + 1, close));
        pending(s, start, at, depth) + seq![symbol] + scan(s, close + 1, close + 1, depth)
    } else if s[at] == '(' {
        if depth == 0 {
            pending(s, start, at, 0) + scan(s, at, at + 1, 1)
        } else {
            scan(s, start, at + 1, depth + 1)
        }
    } else if s[at] == ')' {
        if depth == 0 {
            scan(s, start, at + 1, 0)
        } else if depth == 1 {
            seq![Run::Italic(s.subrange(start, at + 1))] + scan(s, at + 1, at + 1, 0)
        } else {
            scan(s, start, at + 1, (depth - 1) as nat)
        }
    } else {
        scan(s, start, at + 1, depth)
    }
}

#[via_fn]
proof fn scan_decreases(s: Seq<char>, start: int, at: int, depth: nat) {
    if at < s.len() && opens_symbol(s, at) {
        lemma_first_close_bounds(s, at + 1);
    }
}

/// `first_close` stays between its starting point and the end of the text,
/// stands on a `}` where it is inside the text, and passes over none.
pub proof fn lemma_first_close_bounds(s: Seq<char>, from: int)
    requires
        0 <= from <= s.len(),
    ensures
        from <= first_close(s, from) <= s.len(),
        first_close(s, from) < s.len() ==> s[first_close(s, from)] == '}',
        forall|k: int| from <= k < first_close(s, from) ==> s[k] != '}',
    decreases s.len() - from,
{
    if from < s.len() && s[from] != '}' {
        lemma_first_close_bounds(s, from + 1);
    }
}

/// The runs of a whole text.
pub open spec fn tokens(s: Seq<char>) -> Seq<Run> {
    scan(s, 0, 0, 0)
}

/// The text that a run was read from: its own text, or its name in braces.
pub open spec fn run_source(r: Run) -> Seq<char> {
    match r {
        Run::Regular(t) => t,
        Run::Italic(t) => t,
        Run::Symbol(n) => seq!['{'] + n + seq!['}'],
    }
}

/// The text that a sequence of runs was read from, run after run.
pub open spec fn source_text(runs: Seq<Run>) -> Seq<char>
    decreases runs.len(),
{
    if runs.len() == 0 {
        Seq::empty()
    } else {
        source_text(runs.drop_last()) + run_source(runs.last())
    }
}

/// The source of two sequences of runs, one after the other, is the source of
/// the first followed by the source of the second.
pub proof fn lemma_source_text_concat(a: Seq<Run>, b: Seq<Run>)
    ensures
        source_text(a + b) == source_text(a) + source_text(b),
    decreases b.len(),
{
    if b.len() == 0 {
        assert(a + b =~= a);
        assert(source_text(a) + source_text(b) =~= source_text(a));
    } else {
        assert((a + b).drop_last() =~= a + b.drop_last());
        assert((a + b).last() == b.last());
        lemma_source_text_concat(a, b.drop_last());
        assert(source_text(a + b) =~= source_text(a) + source_text(b));
    }
}

/// The source of a single run.
pub proof fn lemma_source_text_single(r: Run)
    ensures
        source_text(seq![r]) == run_source(r),
{
    let one = seq![r];
    assert(one.drop_last() =~= Seq::<Run>::empty());
    assert(source_text(one.drop_last()) =~= Seq::<char>::empty());
    assert(source_text(one) =~= run_source(r));
}

proof fn lemma_pending_source(s: Seq<char>, start: int, end: int, depth: nat)
    requires
        0 <= start <= end <= s.len(),
    ensures
        source_text(pending(s, start, end, depth)) == s.subrange(start, end),
{
    if start >= end {
        assert(s.subrange(start, end) =~= Seq::<char>::empty());
    } else if depth > 0 {
        lemma_source_text_single(Run::Italic(s.subrange(start, end)));
    } else {
        lemma_source_text_single(Run::Regular(s.subrange(start, end)));
    }
}

proof fn lemma_scan_source(s: Seq<char>, start: int, at: int, depth: nat)
    requires
        0 <= start <= at <= s.len(),
    ensures
        source_text(scan(s, start, at, depth)) == s.subrange(start, s.len() as int),
    decreases s.len() - at,
{
    let n = s.len() as int;
    if at >= n {
        lemma_pending_source(s, start, n, depth);
    } else if opens_symbol(s, at) {
        let close = first_close(s, at + 1);
        lemma_first_close_bounds(s, at + 1);
        let head = pending(s, start, at, depth);
        let sym = Run::Symbol(s.subrange(at + 1, close));
        let rest = scan(s, close + 1, close + 1, depth);
        lemma_pending_source(s, start, at, depth);
        lemma_source_text_single(sym);
        lemma_scan_source(s, close + 1, close + 1, depth);
        lemma_source_text_concat(head, seq![sym]);
        lemma_source_text_concat(head + seq![sym], rest);
        assert(run_source(sym) =~= s.subrange(at, close + 1));
        assert(s.subrange(start, at) + s.subrange(at, close + 1) + s.subrange(close + 1, n)
            =~= s.subrange(start, n));
    } else if s[at] == '(' {
        if depth == 0 {
            let head = pending(s, start, at, 0);
            let rest = scan(s, at, at + 1, 1);
            lemma_pending_source(s, start, at, 0);
            lemma_scan_source(s, at, at + 1, 1);
            lemma_source_text_concat(head, rest);
            assert(s.subrange(start, at) + s.subrange(at, n) =~= s.subrange(start, n));
        } else {
            lemma_scan_source(s, start, at + 1, depth + 1);
        }
    } else if s[at] == ')' {
        if depth == 0 {
            lemma_scan_source(s, start, at + 1, 0);
        } else if depth == 1 {
            let run = Run::Italic(s.subrange(start, at + 1));
            let rest = scan(s, at + 1, at + 1, 0);
            lemma_source_text_single(run);
            lemma_scan_source(s, at + 1, at + 1, 0);
            lemma_source_text_concat(seq![run], rest);
            assert(s.subrange(start, at + 1) + s.subrange(at + 1, n) =~= s.subrange(start, n));
        } else {
            lemma_scan_source(s, start, at + 1, (depth - 1) as nat);
        }
    } else {
        lemma_scan_source(s, start, at + 1, depth);
    }
}

/// Whether a run holds something: a text run at least one character. (A
/// symbol's name is empty where the text holds `{}`.)
pub open spec fn has_text(r: Run) -> bool {
    match r {
        Run::Regular(t) => t.len() > 0,
        Run::Italic(t) => t.len() > 0,
        Run::Symbol(_) => true,
    }
}

proof fn lemma_all_have_text(a: Seq<Run>, b: Seq<Run>)
    requires
        forall|i: int| 0 <= i < a.len() ==> has_text(#[trigger] a[i]),
        forall|i: int| 0 <= i < b.len() ==> has_text(#[trigger] b[i]),
    ensures
        forall|i: int| 0 <= i < (a + b).len() ==> has_text(#[trigger] (a + b)[i]),
{
    assert forall|i: int| 0 <= i < (a + b).len() implies has_text(#[trigger] (a + b)[i]) by {
        if i < a.len() {
            assert((a + b)[i] == a[i]);
        } else {
            assert((a + b)[i] == b[i - a.len()]);
        }
    }
}

proof fn lemma_scan_has_text(s: Seq<char>, start: int, at: int, depth: nat)
    requires
        0 <= start <= at <= s.len(),
    ensures
        forall|i: int|
            0 <= i < scan(s, start, at, depth).len() ==> has_text(
                #[trigger] scan(s, start, at, depth)[i],
            ),
    decreases s.len() - at,
{
    let all = scan(s, start, at, depth);
    if at >= s.len() {
        assert(all == pending(s, start, s.len() as int, depth));
    } else if opens_symbol(s, at) {
        let close = first_close(s, at + 1);
        lemma_first_close_bounds(s, at + 1);
        lemma_scan_has_text(s, close + 1, close + 1, depth);
        let head = pending(s, start, at, depth);
        let sym = seq![Run::Symbol(s.subrange(at + 1, close))];
        lemma_all_have_text(head, sym);
        lemma_all_have_text(head + sym, scan(s, close + 1, close + 1, depth));
    } else if s[at] == '(' {
        if depth == 0 {
            lemma_scan_has_text(s, at, at + 1, 1);
            lemma_all_have_text(pending(s, start, at, 0), scan(s, at, at + 1, 1));
        } else {
            lemma_scan_has_text(s, start, at + 1, depth + 1);
            assert(all == scan(s, start, at + 1, depth + 1));
        }
    } else if s[at] == ')' {
        if depth == 0 {
            lemma_scan_has_text(s, start, at + 1, 0);
            assert(all == scan(s, start, at + 1, 0));
        } else if depth == 1 {
            lemma_scan_has_text(s, at + 1, at + 1, 0);
            lemma_all_have_text(
                seq![Run::Italic(s.subrange(start, at + 1))],
                scan(s, at + 1, at + 1, 0),
            );
        } else {
            lemma_scan_has_text(s, start, at + 1, (depth - 1) as nat);
            assert(all == scan(s, start, at + 1, (depth - 1) as nat));
        }
    } else {
        lemma_scan_has_text(s, start, at + 1, depth);
        assert(all == scan(s, start, at + 1, depth));
    }
}

/// No text run of a tokenized text is empty.
pub proof fn lemma_text_runs_hold_text(s: Seq<char>)
    ensures
        forall|i: int| 0 <= i < tokens(s).len() ==> has_text(#[trigger] tokens(s)[i]),
{
    lemma_scan_has_text(s, 0, 0, 0);
}

/// What the style of a run says of its text: regular text holds no opening
/// parenthesis, and the name of a symbol no closing brace.
pub open spec fn style_fits(r: Run) -> bool {
    match r {
        Run::Regular(t) => forall|k: int| 0 <= k < t.len() ==> t[k] != '(',
        Run::Italic(_) => true,
        Run::Symbol(n) => forall|k: int| 0 <= k < n.len() ==> n[k] != '}',
    }
}

proof fn lemma_all_fit(a: Seq<Run>, b: Seq<Run>)
    requires
        forall|i: int| 0 <= i < a.len() ==> style_fits(#[trigger] a[i]),
        forall|i: int| 0 <= i < b.len() ==> style_fits(#[trigger] b[i]),
    ensures
        forall|i: int| 0 <= i < (a + b).len() ==> style_fits(#[trigger] (a + b)[i]),
{
    assert forall|i: int| 0 <= i < (a + b).len() implies style_fits(#[trigger] (a + b)[i]) by {
        if i < a.len() {
            assert((a + b)[i] == a[i]);
        } else {
            assert((a + b)[i] == b[i - a.len()]);
        }
    }
}

proof fn lemma_scan_fits(s: Seq<char>, start: int, at: int, depth: nat)
    requires
        0 <= start <= at <= s.len(),
        depth == 0 ==> forall|k: int| start <= k < at ==> s[k] != '(',
    ensures
        forall|i: int|
            0 <= i < scan(s, start, at, depth).len() ==> style_fits(
                #[trigger] scan(s, start, at, depth)[i],
            ),
    decreases s.len() - at,
{
    let all = scan(s, start, at, depth);
    if at >= s.len() {
        assert(all == pending(s, start, s.len() as int, depth));
    } else if opens_symbol(s, at) {
        let close = first_close(s, at + 1);
        lemma_first_close_bounds(s, at + 1);
        lemma_scan_fits(s, close + 1, close + 1, depth);
        let head = pending(s, start, at, depth);
        let symbol = Run::Symbol(s.subrange(at + 1, close));
        assert(style_fits(symbol));
        lemma_all_fit(head, seq![symbol]);
        lemma_all_fit(head + seq![symbol], scan(s, close + 1, close + 1, depth));
    } else if s[at] == '(' {
        if depth == 0 {
            lemma_scan_fits(s, at, at + 1, 1);
            lemma_all_fit(pending(s, start, at, 0), scan(s, at, at + 1, 1));
        } else {
            lemma_scan_fits(s, start, at + 1, depth + 1);
            assert(all == scan(s, start, at + 1, depth + 1));
        }
    } else if s[at] == ')' {
        if depth == 0 {
            lemma_scan_fits(s, start, at + 1, 0);
            assert(all == scan(s, start, at + 1, 0));
        } else if depth == 1 {
            lemma_scan_fits(s, at + 1, at + 1, 0);
            lemma_all_fit(
                seq![Run::Italic(s.subrange(start, at + 1))],
                scan(s, at + 1, at + 1, 0),
            );
        } else {
            lemma_scan_fits(s, start, at + 1, (depth - 1) as nat);
            assert(all == scan(s, start, at + 1, (depth - 1) as nat));
        }
    } else {
        lemma_scan_fits(s, start, at + 1, depth);
        assert(all == scan(s, start, at + 1, depth));
    }
}

/// In a tokenized text no regular run holds an opening parenthesis, and no
/// symbol's name a closing brace.
pub proof fn lemma_styles_fit(s: Seq<char>)
    ensures
        forall|i: int| 0 <= i < tokens(s).len() ==> style_fits(#[trigger] tokens(s)[i]),
{
    lemma_scan_fits(s, 0, 0, 0);
}

/// Reading the runs of a text back, symbols in their braces, gives the text
/// again, whatever braces and parentheses it holds.
pub proof fn lemma_round_trip(s: Seq<char>)
    ensures
        source_text(tokens(s)) == s,
{
    lemma_scan_source(s, 0, 0, 0);
    assert(s.subrange(0, s.len() as int) =~= s);
}

/// Tokenizing what the runs of a text read back to gives the same runs.
pub proof fn lemma_retokenize(s: Seq<char>)
    ensures
        tokens(source_text(tokens(s))) == tokens(s),
{
    lemma_round_trip(s);
}

/// The characters of a text, in order.
pub fn chars_of(text: &str) -> (chars: Vec<char>)
    ensures
        chars@ == text@,
{
    let mut chars: Vec<char> = Vec::new();
    let mut it = text.chars();
    loop
        invariant
            it.obeys_prophetic_iter_laws(),
            chars@ + it.remaining() == text@,
        ensures
            chars@ == text@,
        decreases text@.len() - chars@.len(),
    {
        match it.next() {
            Some(c) => {
                chars.push(c);
            },
            None => {
                assert(chars@ + it.remaining() =~= chars@);
                break;
            },
        }
    }
    chars
}

/// A `}` at `k` stops `first_close` at `k` at the latest.
proof fn lemma_first_close_finds(s: Seq<char>, from: int, k: int)
    requires
        0 <= from <= k < s.len(),
        s[k] == '}',
    ensures
        first_close(s, from) <= k,
    decreases k - from,
{
    if s[from] != '}' {
        lemma_first_close_finds(s, from + 1, k);
    }
}

/// Appending an item appends its run.
proof fn lemma_runs_of_push(items: Seq<TextItem>, item: TextItem)
    ensures
        runs_of(items.push(item)) == runs_of(items) + seq![item@],
{
    assert(runs_of(items.push(item)) =~= runs_of(items) + seq![item@]);
}

/// The position of the last `}` of the text, or the text's length where it
/// holds none.
fn last_close(chars: &Vec<char>) -> (last: usize)
    ensures
        last <= chars.len(),
        last < chars.len() ==> chars[last as int] == '}',
        forall|k: int| last < k < chars.len() ==> chars[k] != '}',
        last == chars.len() ==> forall|k: int| 0 <= k < chars.len() ==> chars[k] != '}',
{
    let mut at: usize = chars.len();
    while at > 0
        invariant
            at <= chars.len(),
            forall|k: int| at <= k < chars.len() ==> chars[k] != '}',
        decreases at,
    {
        at -= 1;
        if chars[at] == '}' {
            return at;
        }
    }
    chars.len()
}

/// The position of the first `}` at or after `from`.
fn find_close(chars: &Vec<char>, from: usize) -> (close: usize)
    requires
        from <= chars.len(),
    ensures
        close == first_close(chars@, from as int),
{
    let mut at: usize = from;
    while at < chars.len() && chars[at] != '}'
        invariant
            from <= at <= chars.len(),
            first_close(chars@, from as int) == first_close(chars@, at as int),
        decreases chars.len() - at,
    {
        at += 1;
    }
    at
}

/// Appends the run that `text[start..end)` forms at parenthesis depth `depth`,
/// if it holds any character.
fn emit(items: &mut Vec<TextItem>, text: &str, start: usize, end: usize, depth: usize)
    requires
        start <= end <= text@.len(),
    ensures
        runs_of(final(items)@) == runs_of(old(items)@) + pending(
            text@,
            start as int,
            end as int,
            depth as nat,
        ),
{
    if start < end {
        let piece = text.substring_char(start, end).to_owned();
        let item = if depth > 0 {
            TextItem::Italic(piece)
        } else {
            TextItem::Regular(piece)
        };
        proof {
            lemma_runs_of_push(items@, item);
        }
        items.push(item);
    } else {
        assert(runs_of(items@) + Seq::<Run>::empty() =~= runs_of(items@));
    }
}

/// Splits card text into its runs: `{..}` is a symbol, text inside
/// parentheses is italic with the parentheses themselves, the rest is
/// regular. Parentheses nest and stay open across a symbol; a `{` that no `}`
/// follows and a `)` that closes nothing are ordinary characters.
pub fn make_mtg_paragraph(text: &str) -> (items: Vec<TextItem>)
    ensures
        runs_of(items@) == tokens(text@),
        source_text(runs_of(items@)) == text@,
        forall|i: int| 0 <= i < items@.len() ==> has_text(#[trigger] items@[i]@),
{
    let chars = chars_of(text);
    let n = chars.len();
    let last = last_close(&chars);
    let mut items: Vec<TextItem> = Vec::new();
    let mut start: usize = 0;
    let mut at: usize = 0;
    let mut depth: usize = 0;
    assert(runs_of(items@) + scan(chars@, 0, 0, 0) =~= tokens(text@));
    while at < n
        invariant
            chars@ == text@,
            n == chars.len(),
            start <= at <= n,
            depth <= at,
            last <= n,
            last < n ==> chars[last as int] == '}',
            forall|k: int| last < k < n ==> chars[k] != '}',
            last == n ==> forall|k: int| 0 <= k < n ==> chars[k] != '}',
            runs_of(items@) + scan(chars@, start as int, at as int, depth as nat) == tokens(text@),
        decreases n - at,
    {
        let ghost before = runs_of(items@);
        let c = chars[at];
        proof {
            lemma_first_close_bounds(chars@, at + 1);
            if at < last && last < n {
                lemma_first_close_finds(chars@, at + 1, last as int);
            }
        }
        if c == '{' && at < last && last < n {
            let close = find_close(&chars, at + 1);
            emit(&mut items, text, start, at, depth);
            let name = text.substring_char(at + 1, close).to_owned();
            let symbol = TextItem::Symbol(name);
            proof {
                lemma_runs_of_push(items@, symbol);
                assert(before + (pending(chars@, start as int, at as int, depth as nat)
                    + seq![symbol@] + scan(chars@, close + 1, close + 1, depth as nat))
                    =~= before + pending(chars@, start as int, at as int, depth as nat)
                    + seq![symbol@] + scan(chars@, close + 1, close + 1, depth as nat));
            }
            items.push(symbol);
            start = close + 1;
            at = close + 1;
        } else if c == '(' {
            if depth == 0 {
                emit(&mut items, text, start, at, 0);
                proof {
                    assert(before + (pending(chars@, start as int, at as int, 0) + scan(
                        chars@,
                        at as int,
                        at + 1,
                        1,
                    )) =~= before + pending(chars@, start as int, at as int, 0) + scan(
                        chars@,
                        at as int,
                        at + 1,
                        1,
                    ));
                }
                start = at;
            }
            depth += 1;
            at += 1;
        } else if c == ')' {
            if depth == 1 {
                let piece = text.substring_char(start, at + 1).to_owned();
                let item = TextItem::Italic(piece);
                proof {
                    lemma_runs_of_push(items@, item);
                    assert(before + (seq![item@] + scan(chars@, at + 1, at + 1, 0)) =~= before
                        + seq![item@] + scan(chars@, at + 1, at + 1, 0));
                }
                items.push(item);
                start = at + 1;
                depth = 0;
            } else if depth > 1 {
                depth -= 1;
            }
            at += 1;
        } else {
            at += 1;
        }
    }
    emit(&mut items, text, start, n, depth);
    proof {
        lemma_round_trip(text@);
        lemma_text_runs_hold_text(text@);
        assert forall|i: int| 0 <= i < items@.len() implies has_text(#[trigger] items@[i]@) by {
            assert(items@[i]@ == runs_of(items@)[i]);
        }
    }
    items
}

/// The text that the items were read from: text runs as they are, symbols by
/// their names in braces.
pub fn source_of(items: &Vec<TextItem>) -> (text: String)
    ensures
        text@ == source_text(runs_of(items@)),
{
    let mut text = String::new();
    let ghost runs = runs_of(items@);
    assert(runs.take(0) =~= Seq::<Run>::empty());
    for i in 0..items.len()
        invariant
            runs == runs_of(items@),
            text@ == source_text(runs.take(i as int)),
    {
        proof {
            assert(runs.take(i + 1).drop_last() =~= runs.take(i as int));
            assert(runs.take(i + 1).last() == items@[i as int]@);
            reveal_strlit("{");
            reveal_strlit("}");
        }
        let ghost before = text@;
        match &items[i] {
            TextItem::Regular(t) => {
                text.append(t.as_str());
            },
            TextItem::Italic(t) => {
                text.append(t.as_str());
            },
            TextItem::Symbol(n) => {
                text.append("{");
                text.append(n.as_str());
                text.append("}");
                assert(text@ =~= before + (seq!['{'] + n@ + seq!['}']));
            },
        }
    }
    assert(runs.take(items.len() as int) =~= runs);
    text
}

} // verus!
