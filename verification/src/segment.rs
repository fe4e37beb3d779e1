//! Finding the paragraphs and the sentences of a text.

use crate::text::{all_whitespace, char_is_whitespace, chars_of, is_whitespace, text_of};
use vstd::prelude::*;
use vstd::string::*;

verus! {

/// The texts in `texts`, one for one.
pub open spec fn views(texts: Seq<String>) -> Seq<Seq<char>> {
    Seq::new(texts.len(), |i: int| texts[i]@)
}

/// Adding a text to a list adds its characters to the list's.
pub proof fn lemma_views_push(texts: Seq<String>, text: String)
    ensures
        views(texts.push(text)) == views(texts).push(text@),
{
    assert(views(texts.push(text)) =~= views(texts).push(text@));
}

/// Whether `pattern` stands in `text` at place `at`.
pub open spec fn occurs_at(text: Seq<char>, pattern: Seq<char>, at: int) -> bool {
    0 <= at && at + pattern.len() <= text.len() && text.subrange(at, at + pattern.len())
        == pattern
}

/// The first place at which `pattern` stands in `text`.
pub open spec fn first_occurrence(text: Seq<char>, pattern: Seq<char>) -> Option<int>
    decreases text.len(),
{
    if pattern.len() > text.len() {
        None
    } else if occurs_at(text, pattern, 0) {
        Some(0)
    } else if text.len() == 0 {
        None
    } else {
        match first_occurrence(text.drop_first(), pattern) {
            Some(at) => Some(at + 1),
            None => None,
        }
    }
}

/// The first occurrence is an occurrence, and none comes before it.
pub proof fn lemma_first_occurrence(text: Seq<char>, pattern: Seq<char>)
    ensures
        match first_occurrence(text, pattern) {
            Some(at) => occurs_at(text, pattern, at) && forall|j: int|
                0 <= j < at ==> !occurs_at(text, pattern, j),
            None => forall|j: int| !occurs_at(text, pattern, j),
        },
    decreases text.len(),
{
    if pattern.len() > text.len() {
    } else if occurs_at(text, pattern, 0) {
    } else if text.len() == 0 {
        assert(text.subrange(0, 0) =~= pattern);
    } else {
        let rest = text.drop_first();
        lemma_first_occurrence(rest, pattern);
        assert forall|j: int| occurs_at(text, pattern, j) && j > 0 implies occurs_at(
            rest,
            pattern,
            j - 1,
        ) by {
            assert(rest.subrange(j - 1, j - 1 + pattern.len()) == text.subrange(
                j,
                j + pattern.len(),
            ));
        }
        match first_occurrence(rest, pattern) {
            Some(at) => {
                assert(rest.subrange(at, at + pattern.len()) == text.subrange(
                    at + 1,
                    at + 1 + pattern.len(),
                ));
                assert forall|j: int| 0 <= j < at + 1 implies !occurs_at(text, pattern, j) by {
                    if j > 0 && occurs_at(text, pattern, j) {
                        assert(occurs_at(rest, pattern, j - 1));
                    }
                }
            },
            None => {
                assert forall|j: int| !occurs_at(text, pattern, j) by {
                    if j > 0 && occurs_at(text, pattern, j) {
                        assert(occurs_at(rest, pattern, j - 1));
                    }
                }
            },
        }
    }
}

/// A place with an occurrence and none before it is the first occurrence.
pub proof fn lemma_first_occurrence_is(text: Seq<char>, pattern: Seq<char>, at: int)
    requires
        occurs_at(text, pattern, at),
        forall|j: int| 0 <= j < at ==> !occurs_at(text, pattern, j),
    ensures
        first_occurrence(text, pattern) == Some(at),
{
    lemma_first_occurrence(text, pattern);
    match first_occurrence(text, pattern) {
        Some(found) => {
            if found < at {
                assert(!occurs_at(text, pattern, found));
            }
        },
        None => {
            assert(!occurs_at(text, pattern, at));
        },
    }
}

/// A text without an occurrence has no first one.
pub proof fn lemma_no_occurrence(text: Seq<char>, pattern: Seq<char>)
    requires
        forall|j: int| 0 <= j ==> !occurs_at(text, pattern, j),
    ensures
        first_occurrence(text, pattern) is None,
{
    lemma_first_occurrence(text, pattern);
    if first_occurrence(text, pattern) is Some {
        assert(occurs_at(text, pattern, first_occurrence(text, pattern)->0));
    }
}

/// A piece as a paragraph: one that is white space alone is none.
pub open spec fn kept(piece: Seq<char>) -> Seq<Seq<char>> {
    if all_whitespace(piece) {
        Seq::empty()
    } else {
        seq![piece]
    }
}

/// The characters of `text` that are no white space, each as a text.
pub open spec fn letters(text: Seq<char>) -> Seq<Seq<char>>
    decreases text.len(),
{
    if text.len() == 0 {
        Seq::empty()
    } else {
        kept(seq![text.first()]) + letters(text.drop_first())
    }
}

/// The pieces between the occurrences of `separator` in `text`, taken from
/// the left, without those that are white space alone.
pub open spec fn pieces(text: Seq<char>, separator: Seq<char>) -> Seq<Seq<char>>
    recommends
        separator.len() > 0,
    decreases text.len(),
{
    match first_occurrence(text, separator) {
        Some(at) => if separator.len() > 0 && 0 <= at && at + separator.len() <= text.len() {
            kept(text.take(at)) + pieces(text.skip(at + separator.len()), separator)
        } else {
            kept(text)
        },
        None => kept(text),
    }
}

/// The paragraphs of `text`: what stands between separators and is more
/// than white space. An empty separator stands between any two characters.
pub open spec fn paragraphs(text: Seq<char>, separator: Seq<char>) -> Seq<Seq<char>> {
    if separator.len() == 0 {
        letters(text)
    } else {
        pieces(text, separator)
    }
}

fn matches_at(text: &Vec<char>, at: usize, pattern: &Vec<char>) -> (r: bool)
    requires
        at + pattern.len() <= text.len(),
    ensures
        r == occurs_at(text@, pattern@, at as int),
{
    let m = pattern.len();
    let mut k: usize = 0;
    while k < m
        invariant
            m == pattern.len(),
            at + m <= text.len(),
            k <= m,
            forall|j: int| 0 <= j < k ==> text@[at + j] == pattern@[j],
        decreases m - k,
    {
        if text[at + k] != pattern[k] {
            assert(text@.subrange(at as int, at + m)[k as int] != pattern@[k as int]);
            return false;
        }
        k = k + 1;
    }
    assert(text@.subrange(at as int, at + m) =~= pattern@);
    true
}

fn blank_range(text: &Vec<char>, from: usize, to: usize) -> (r: bool)
    requires
        from <= to <= text.len(),
    ensures
        r == all_whitespace(text@.subrange(from as int, to as int)),
{
    let mut i = from;
    while i < to
        invariant
            from <= i <= to <= text.len(),
            forall|j: int| from <= j < i ==> is_whitespace(text@[j]),
        decreases to - i,
    {
        if !char_is_whitespace(text[i]) {
            assert(text@.subrange(from as int, to as int)[i - from] == text@[i as int]);
            return false;
        }
        i = i + 1;
    }
    assert forall|j: int| 0 <= j < to - from implies is_whitespace(
        #[trigger] text@.subrange(from as int, to as int)[j],
    ) by {
        assert(text@.subrange(from as int, to as int)[j] == text@[from + j]);
    }
    true
}

/// Finds the paragraphs of `text`.
pub fn split_paragraphs(text: &str, separator: &str) -> (found: Vec<String>)
    ensures
        views(found@) == paragraphs(text@, separator@),
{
    let chars = chars_of(text);
    let pattern = chars_of(separator);
    let n = chars.len();
    let m = pattern.len();
    let mut found: Vec<String> = Vec::new();
    if m == 0 {
        let mut i: usize = 0;
        assert(chars@.skip(0) == chars@);
        assert(views(found@) + letters(chars@) == letters(chars@));
        while i < n
            invariant
                n == chars.len(),
                i <= n,
                views(found@) + letters(chars@.skip(i as int)) == letters(chars@),
            decreases n - i,
        {
            let ghost rest = chars@.skip(i as int);
            let ghost before = views(found@);
            assert(rest.first() == chars@[i as int]);
            assert(rest.drop_first() == chars@.skip(i + 1));
            assert(chars@.subrange(i as int, i + 1) == seq![chars@[i as int]]);
            if !blank_range(&chars, i, i + 1) {
                let piece = text_of(&chars, i, i + 1);
                proof {
                    lemma_views_push(found@, piece);
                }
                found.push(piece);
                assert(views(found@) == before + kept(seq![rest.first()]));
            }
            assert(views(found@) =~= before + kept(seq![rest.first()]));
            assert(views(found@) + letters(chars@.skip(i + 1)) =~= before + letters(rest));
            i = i + 1;
        }
        assert(views(found@) + letters(chars@.skip(n as int)) =~= views(found@));
        return found;
    }
    let mut start: usize = 0;
    let mut i: usize = 0;
    assert(chars@.skip(0) == chars@);
    assert(views(found@) + pieces(chars@, pattern@) == pieces(chars@, pattern@));
    while i < n && m <= n - i
        invariant
            n == chars.len(),
            m == pattern.len(),
            m > 0,
            start <= i <= n,
            views(found@) + pieces(chars@.skip(start as int), pattern@) == pieces(
                chars@,
                pattern@,
            ),
            forall|j: int|
                0 <= j < i - start ==> !occurs_at(chars@.skip(start as int), pattern@, j),
        decreases n - i,
    {
        let ghost rest = chars@.skip(start as int);
        let ghost before = views(found@);
        assert(rest.subrange(i - start, i - start + m) == chars@.subrange(i as int, i + m));
        if matches_at(&chars, i, &pattern) {
            proof {
                lemma_first_occurrence_is(rest, pattern@, i - start);
                assert(rest.take(i - start) == chars@.subrange(start as int, i as int));
                assert(rest.skip(i - start + m) == chars@.skip(i + m));
            }
            if !blank_range(&chars, start, i) {
                let piece = text_of(&chars, start, i);
                proof {
                    lemma_views_push(found@, piece);
                }
                found.push(piece);
            }
            assert(views(found@) =~= before + kept(rest.take(i - start)));
            assert(views(found@) + pieces(chars@.skip(i + m), pattern@) =~= before + pieces(
                rest,
                pattern@,
            ));
            i = i + m;
            start = i;
        } else {
            i = i + 1;
        }
    }
    proof {
        let rest = chars@.skip(start as int);
        assert forall|j: int| 0 <= j implies !occurs_at(rest, pattern@, j) by {
            if j >= i - start && occurs_at(rest, pattern@, j) {
                assert(j + m <= n - start);
            }
        }
        lemma_no_occurrence(rest, pattern@);
        assert(rest == chars@.subrange(start as int, n as int));
    }
    let ghost before = views(found@);
    if !blank_range(&chars, start, n) {
        let piece = text_of(&chars, start, n);
        proof {
            lemma_views_push(found@, piece);
        }
        found.push(piece);
    }
    assert(views(found@) =~= before + kept(chars@.skip(start as int)));
    found
}


/// Whether `c` ends a sentence: a full stop, an exclamation mark or a
/// question mark, narrow or wide.
pub open spec fn is_terminator(c: char) -> bool {
    c == '.' || c == '!' || c == '?' || c == '\u{3002}' || c == '\u{ff1f}' || c == '\u{ff01}'
}

/// Computes [`is_terminator`].
pub fn ends_sentence(c: char) -> (r: bool)
    ensures
        r == is_terminator(c),
{
    c == '.' || c == '!' || c == '?' || c == '\u{3002}' || c == '\u{ff1f}' || c == '\u{ff01}'
}

/// The number of characters at the start of `text` that end no sentence.
pub open spec fn run_length(text: Seq<char>) -> nat
    decreases text.len(),
{
    if text.len() == 0 || is_terminator(text.first()) {
        0
    } else {
        1 + run_length(text.drop_first())
    }
}

/// The length of the sentence with which `text` starts: its run of
/// characters that end no sentence, and the one that ends it, if any.
pub open spec fn sentence_length(text: Seq<char>) -> nat {
    if run_length(text) < text.len() {
        run_length(text) + 1
    } else {
        run_length(text)
    }
}

/// The sentences of `text`, from the left: each is as long a run of
/// characters that end no sentence as there is, with the character that
/// ends it. Characters that end a sentence where none has begun belong to
/// none.
pub open spec fn sentences(text: Seq<char>) -> Seq<Seq<char>>
    decreases text.len(),
{
    if text.len() == 0 {
        Seq::empty()
    } else if is_terminator(text.first()) {
        sentences(text.drop_first())
    } else {
        proof {
            lemma_run_bounds(text);
        }
        seq![text.take(sentence_length(text) as int)] + sentences(
            text.skip(sentence_length(text) as int),
        )
    }
}

/// A run is no longer than the text, and not empty where the text starts
/// with a character that ends no sentence.
pub proof fn lemma_run_bounds(text: Seq<char>)
    ensures
        run_length(text) <= text.len(),
        text.len() > 0 && !is_terminator(text.first()) ==> run_length(text) >= 1,
    decreases text.len(),
{
    if text.len() > 0 && !is_terminator(text.first()) {
        lemma_run_bounds(text.drop_first());
    }
}

/// A run is as long as the characters before the first that ends a
/// sentence.
pub proof fn lemma_run_length(text: Seq<char>, run: int)
    requires
        0 <= run <= text.len(),
        forall|j: int| 0 <= j < run ==> !is_terminator(text[j]),
        run < text.len() ==> is_terminator(text[run]),
    ensures
        run_length(text) == run,
    decreases run,
{
    if run > 0 {
        let rest = text.drop_first();
        assert forall|j: int| 0 <= j < run - 1 implies !is_terminator(rest[j]) by {
            assert(rest[j] == text[j + 1]);
        }
        if run < text.len() {
            assert(rest[run - 1] == text[run]);
        }
        lemma_run_length(rest, run - 1);
    }
}

/// What a sentence is: not empty, and without a character that ends a
/// sentence anywhere but at its end.
pub open spec fn is_sentence(sentence: Seq<char>) -> bool {
    sentence.len() > 0 && forall|i: int|
        0 <= i < sentence.len() - 1 ==> !is_terminator(#[trigger] sentence[i])
}

/// The characters of a run end no sentence.
proof fn lemma_run(text: Seq<char>)
    ensures
        forall|i: int| 0 <= i < run_length(text) ==> !is_terminator(#[trigger] text[i]),
        run_length(text) < text.len() ==> is_terminator(text[run_length(text) as int]),
    decreases text.len(),
{
    if text.len() > 0 && !is_terminator(text.first()) {
        let rest = text.drop_first();
        lemma_run(rest);
        lemma_run_bounds(rest);
        assert forall|i: int| 0 <= i < run_length(text) implies !is_terminator(
            #[trigger] text[i],
        ) by {
            if i > 0 {
                assert(text[i] == rest[i - 1]);
            }
        }
        if run_length(text) < text.len() {
            assert(text[run_length(text) as int] == rest[run_length(rest) as int]);
        }
    }
}

/// Everything that is found in a text as a sentence is one.
pub proof fn law_sentences(text: Seq<char>)
    ensures
        forall|i: int|
            0 <= i < sentences(text).len() ==> is_sentence(#[trigger] sentences(text)[i]),
    decreases text.len(),
{
    if text.len() == 0 {
        assert(sentences(text).len() == 0);
    } else if is_terminator(text.first()) {
        law_sentences(text.drop_first());
        assert(sentences(text) == sentences(text.drop_first()));
    } else {
        lemma_run_bounds(text);
        lemma_run(text);
        let n = sentence_length(text) as int;
        let head = text.take(n);
        law_sentences(text.skip(n));
        let rest = sentences(text.skip(n));
        let found = sentences(text);
        assert(is_sentence(head)) by {
            assert forall|i: int| 0 <= i < head.len() - 1 implies !is_terminator(
                #[trigger] head[i],
            ) by {
                assert(head[i] == text[i]);
            }
        }
        assert forall|i: int| 0 <= i < found.len() implies is_sentence(#[trigger] found[i]) by {
            if i == 0 {
                assert(found[0] == head);
            } else {
                assert(found[i] == rest[i - 1]);
            }
        }
    }
}

/// Finds the sentences of `text`.
pub fn split_sentences(text: &str) -> (found: Vec<String>)
    ensures
        views(found@) == sentences(text@),
{
    let chars = chars_of(text);
    let n = chars.len();
    let mut found: Vec<String> = Vec::new();
    let mut i: usize = 0;
    assert(chars@.skip(0) == chars@);
    assert(views(found@) + sentences(chars@) == sentences(chars@));
    while i < n
        invariant
            n == chars.len(),
            i <= n,
            views(found@) + sentences(chars@.skip(i as int)) == sentences(chars@),
        decreases n - i,
    {
        let ghost rest = chars@.skip(i as int);
        let ghost before = views(found@);
        assert(rest.first() == chars@[i as int]);
        if ends_sentence(chars[i]) {
            assert(rest.drop_first() == chars@.skip(i + 1));
            i = i + 1;
        } else {
            let start = i;
            while i < n && !ends_sentence(chars[i])
                invariant
                    n == chars.len(),
                    start <= i <= n,
                    forall|j: int| start <= j < i ==> !is_terminator(chars@[j]),
                decreases n - i,
            {
                i = i + 1;
            }
            proof {
                assert forall|j: int| 0 <= j < i - start implies !is_terminator(rest[j]) by {
                    assert(rest[j] == chars@[start + j]);
                }
                if i < n {
                    assert(rest[i - start] == chars@[i as int]);
                }
                lemma_run_length(rest, i - start);
            }
            if i < n {
                i = i + 1;
            }
            let piece = text_of(&chars, start, i);
            proof {
                assert(sentence_length(rest) == i - start);
                assert(rest.take(i - start) == chars@.subrange(start as int, i as int));
                assert(rest.skip(i - start) == chars@.skip(i as int));
                lemma_views_push(found@, piece);
            }
            found.push(piece);
            assert(views(found@) + sentences(chars@.skip(i as int)) =~= before + sentences(rest));
        }
    }
    assert(views(found@) + sentences(chars@.skip(n as int)) =~= views(found@));
    found
}

} // verus!
