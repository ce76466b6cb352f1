//! Splitting a paragraph into words: the units that the line wrapper places.
//!
//! A word is a stretch of text without white space, in the style of the run
//! it came from, or a whole symbol.

use crate::text::{chars_of, runs_of, Run, TextItem};
use vstd::prelude::*;

verus! {

/// White space: the characters with the Unicode property `White_Space`.
pub open spec fn is_space(c: char) -> bool {
    let u = c as u32;
    ||| 0x09 <= u <= 0x0d
    ||| u == 0x20
    ||| u == 0x85
    ||| u == 0xa0
    ||| u == 0x1680
    ||| 0x2000 <= u <= 0x200a
    ||| u == 0x2028
    ||| u == 0x2029
    ||| u == 0x202f
    ||| u == 0x205f
    ||| u == 0x3000
}

/// Whether a character is white space.
pub fn is_whitespace(c: char) -> (r: bool)
    ensures
        r == is_space(c),
{
    let u: u32 = c as u32;
    (0x09 <= u && u <= 0x0d) || u == 0x20 || u == 0x85 || u == 0xa0 || u == 0x1680 || (0x2000 <= u
        && u <= 0x200a) || u == 0x2028 || u == 0x2029 || u == 0x202f || u == 0x205f || u == 0x3000
}

/// The end of the word that starts at `from`: the first position at or after
/// `from` that holds white space, or the end of the text.
pub open spec fn word_end(s: Seq<char>, from: int) -> int
    decreases s.len() - from,
{
    if from >= s.len() {
        s.len() as int
    } else if is_space(s[from]) {
        from
    } else {
        word_end(s, from + 1)
    }
}

/// A word ends after its start, inside the text, and holds no white space.
pub proof fn lemma_word_end_bounds(s: Seq<char>, from: int)
    requires
        0 <= from <= s.len(),
    ensures
        from <= word_end(s, from) <= s.len(),
        from < s.len() && !is_space(s[from]) ==> from < word_end(s, from),
        forall|k: int| from <= k < word_end(s, from) ==> !is_space(s[k]),
        word_end(s, from) < s.len() ==> is_space(s[word_end(s, from)]),
    decreases s.len() - from,
{
    if from < s.len() && !is_space(s[from]) {
        lemma_word_end_bounds(s, from + 1);
    }
}

/// The words of `s` from `at` on: its maximal stretches without white space.
pub open spec fn words_from(s: Seq<char>, at: int) -> Seq<Seq<char>>
    decreases s.len() - at,
    via words_from_decreases
{
    if at < 0 || at >= s.len() {
        Seq::empty()
    } else if is_space(s[at]) {
        words_from(s, at + 1)
    } else {
        seq![s.subrange(at, word_end(s, at))] + words_from(s, word_end(s, at))
    }
}

#[via_fn]
proof fn words_from_decreases(s: Seq<char>, at: int) {
    if 0 <= at < s.len() && !is_space(s[at]) {
        lemma_word_end_bounds(s, at);
    }
}

/// A word is solid: it holds at least one character and no white space.
pub open spec fn solid(w: Seq<char>) -> bool {
    &&& w.len() > 0
    &&& forall|k: int| 0 <= k < w.len() ==> !is_space(#[trigger] w[k])
}

/// Every word of a text is solid.
pub proof fn lemma_words_are_solid(s: Seq<char>, at: int)
    requires
        0 <= at <= s.len(),
    ensures
        forall|i: int| 0 <= i < words_from(s, at).len() ==> solid(#[trigger] words_from(s, at)[i]),
    decreases s.len() - at,
{
    if at < s.len() {
        if is_space(s[at]) {
            lemma_words_are_solid(s, at + 1);
            assert(words_from(s, at) == words_from(s, at + 1));
        } else {
            let end = word_end(s, at);
            lemma_word_end_bounds(s, at);
            lemma_words_are_solid(s, end);
            let first = s.subrange(at, end);
            assert forall|k: int| 0 <= k < first.len() implies !is_space(#[trigger] first[k]) by {
                assert(first[k] == s[at + k]);
            }
            assert(solid(first));
            assert(words_from(s, at) == seq![first] + words_from(s, end));
            assert forall|i: int| 0 <= i < words_from(s, at).len() implies solid(
                #[trigger] words_from(s, at)[i],
            ) by {
                if i > 0 {
                    assert(words_from(s, at)[i] == words_from(s, end)[i - 1]);
                } else {
                    assert(words_from(s, at)[0] == first);
                }
            }
        }
    }
}

/// The pieces of text joined by single spaces.
pub open spec fn spaced(pieces: Seq<Seq<char>>) -> Seq<char>
    decreases pieces.len(),
{
    if pieces.len() == 0 {
        Seq::empty()
    } else if pieces.len() == 1 {
        pieces[0]
    } else {
        pieces[0] + seq![' '] + spaced(pieces.drop_first())
    }
}

/// A word that begins inside a solid stretch ends where the stretch ends, if
/// white space or the end of the text follows the stretch.
proof fn lemma_word_end_of_solid(s: Seq<char>, from: int, end: int)
    requires
        0 <= from <= end <= s.len(),
        forall|k: int| from <= k < end ==> !is_space(#[trigger] s[k]),
        end < s.len() ==> is_space(s[end]),
    ensures
        word_end(s, from) == end,
    decreases end - from,
{
    if from < end {
        lemma_word_end_of_solid(s, from + 1, end);
    }
}

/// The end of a word does not depend on the text before the word.
proof fn lemma_word_end_shift(a: Seq<char>, b: Seq<char>, k: int)
    requires
        0 <= k <= b.len(),
    ensures
        word_end(a + b, a.len() + k) == a.len() + word_end(b, k),
    decreases b.len() - k,
{
    if k < b.len() {
        assert((a + b)[a.len() + k] == b[k]);
        if !is_space(b[k]) {
            lemma_word_end_shift(a, b, k + 1);
        }
    }
}

/// The words from a position on do not depend on the text before it.
proof fn lemma_words_from_shift(a: Seq<char>, b: Seq<char>, k: int)
    requires
        0 <= k <= b.len(),
    ensures
        words_from(a + b, a.len() + k) == words_from(b, k),
    decreases b.len() - k,
{
    let s = a + b;
    if k < b.len() {
        assert(s[a.len() + k] == b[k]);
        if is_space(b[k]) {
            lemma_words_from_shift(a, b, k + 1);
            assert(words_from(s, a.len() + k) == words_from(s, a.len() + k + 1));
            assert(words_from(b, k) == words_from(b, k + 1));
        } else {
            let end = word_end(b, k);
            lemma_word_end_bounds(b, k);
            lemma_word_end_shift(a, b, k);
            lemma_words_from_shift(a, b, end);
            assert(s.subrange(a.len() + k, a.len() + end) =~= b.subrange(k, end));
            assert(words_from(s, a.len() + k) == seq![s.subrange(a.len() + k, a.len() + end)]
                + words_from(s, a.len() + end));
        }
    } else {
        assert(words_from(s, a.len() + k) =~= Seq::<Seq<char>>::empty());
        assert(words_from(b, k) =~= Seq::<Seq<char>>::empty());
    }
}

/// Solid words, written one space apart, split into the same words again:
/// text laid out word by word reads as it did before.
pub proof fn lemma_split_spaced(words: Seq<Seq<char>>)
    requires
        forall|i: int| 0 <= i < words.len() ==> solid(#[trigger] words[i]),
    ensures
        words_from(spaced(words), 0) == words,
    decreases words.len(),
{
    let s = spaced(words);
    if words.len() == 0 {
        assert(words_from(s, 0) =~= words);
    } else {
        let first = words[0];
        assert(solid(first));
        if words.len() == 1 {
            assert(s == first);
            lemma_word_end_of_solid(s, 0, s.len() as int);
            assert(s.subrange(0, s.len() as int) =~= first);
            assert(words_from(s, s.len() as int) =~= Seq::<Seq<char>>::empty());
            assert(words_from(s, 0) =~= seq![first]);
            assert(words =~= seq![first]);
        } else {
            let rest = words.drop_first();
            let head = first + seq![' '];
            assert forall|i: int| 0 <= i < rest.len() implies solid(#[trigger] rest[i]) by {
                assert(rest[i] == words[i + 1]);
            }
            lemma_split_spaced(rest);
            assert(s == head + spaced(rest));
            let n = first.len() as int;
            assert forall|k: int| 0 <= k < n implies !is_space(#[trigger] s[k]) by {
                assert(s[k] == first[k]);
            }
            assert(s[n] == ' ');
            assert(is_space(' '));
            lemma_word_end_of_solid(s, 0, n);
            assert(s.subrange(0, n) =~= first);
            lemma_words_from_shift(head, spaced(rest), 0);
            assert(words_from(s, n) == words_from(s, n + 1));
            assert(words_from(s, 0) == seq![first] + words_from(s, n));
            assert(seq![first] + rest =~= words);
        }
    }
}

/// A piece of text as a run of the given style.
pub open spec fn styled(text: Seq<char>, italic: bool) -> Run {
    if italic {
        Run::Italic(text)
    } else {
        Run::Regular(text)
    }
}

/// Each piece of text as a run of the given style.
pub open spec fn styled_all(texts: Seq<Seq<char>>, italic: bool) -> Seq<Run> {
    Seq::new(texts.len(), |i: int| styled(texts[i], italic))
}

/// The words of a run: a symbol is one word, text falls into its words, each
/// in the style of the run.
pub open spec fn words_of_run(r: Run) -> Seq<Run> {
    match r {
        Run::Regular(t) => styled_all(words_from(t, 0), false),
        Run::Italic(t) => styled_all(words_from(t, 0), true),
        Run::Symbol(n) => seq![Run::Symbol(n)],
    }
}

/// The words of a paragraph, run after run.
pub open spec fn words_of(runs: Seq<Run>) -> Seq<Run>
    decreases runs.len(),
{
    if runs.len() == 0 {
        Seq::empty()
    } else {
        words_of(runs.drop_last()) + words_of_run(runs.last())
    }
}

/// Appends the words of `text`, each as an item of the given style.
fn split_text(words: &mut Vec<TextItem>, text: &str, italic: bool)
    ensures
        runs_of(final(words)@) == runs_of(old(words)@) + styled_all(words_from(text@, 0), italic),
{
    let chars = chars_of(text);
    let n = chars.len();
    let mut at: usize = 0;
    while at < n
        invariant
            chars@ == text@,
            n == chars.len(),
            at <= n,
            runs_of(words@) + styled_all(words_from(text@, at as int), italic) == runs_of(
                old(words)@,
            ) + styled_all(words_from(text@, 0), italic),
        decreases n - at,
    {
        if is_whitespace(chars[at]) {
            at += 1;
        } else {
            let mut end: usize = at + 1;
            while end < n && !is_whitespace(chars[end])
                invariant
                    chars@ == text@,
                    n == chars.len(),
                    at < end <= n,
                    word_end(text@, at as int) == word_end(text@, end as int),
                decreases n - end,
            {
                end += 1;
            }
            let piece = text.substring_char(at, end).to_owned();
            let item = if italic {
                TextItem::Italic(piece)
            } else {
                TextItem::Regular(piece)
            };
            proof {
                let before = runs_of(words@);
                let rest = styled_all(words_from(text@, end as int), italic);
                assert(runs_of(words@.push(item)) =~= before + seq![item@]);
                assert(styled_all(words_from(text@, at as int), italic) =~= seq![item@] + rest);
                assert(before + (seq![item@] + rest) =~= before + seq![item@] + rest);
            }
            words.push(item);
            at = end;
        }
    }
    assert(runs_of(words@) + styled_all(words_from(text@, n as int), italic) =~= runs_of(words@));
}

/// The words of a paragraph, in reading order: each stretch of a text run
/// without white space, in the style of that run, and each symbol whole.
pub fn split_words(paragraph: &Vec<TextItem>) -> (words: Vec<TextItem>)
    ensures
        runs_of(words@) == words_of(runs_of(paragraph@)),
{
    let mut words: Vec<TextItem> = Vec::new();
    let ghost runs = runs_of(paragraph@);
    assert(runs.take(0) =~= Seq::<Run>::empty());
    for i in 0..paragraph.len()
        invariant
            runs == runs_of(paragraph@),
            runs_of(words@) == words_of(runs.take(i as int)),
    {
        proof {
            assert(runs.take(i + 1).drop_last() =~= runs.take(i as int));
            assert(runs.take(i + 1).last() == paragraph@[i as int]@);
        }
        match &paragraph[i] {
            TextItem::Regular(t) => {
                split_text(&mut words, t.as_str(), false);
            },
            TextItem::Italic(t) => {
                split_text(&mut words, t.as_str(), true);
            },
            TextItem::Symbol(n) => {
                let item = TextItem::Symbol(n.clone());
                assert(runs_of(words@.push(item)) =~= runs_of(words@) + seq![item@]);
                words.push(item);
            },
        }
    }
    assert(runs.take(paragraph.len() as int) =~= runs);
    words
}

} // verus!
