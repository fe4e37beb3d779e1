//! Text primitives shared by the rest of the library.

use vstd::prelude::*;
use vstd::string::*;
use vstd::utf8::*;

verus! {

/// The number of bytes that `s` takes in UTF-8.
pub open spec fn byte_len(s: Seq<char>) -> nat {
    encode_utf8(s).len()
}

/// Every character takes at least one byte and at most four.
pub proof fn lemma_byte_len_bounds(s: Seq<char>)
    ensures
        s.len() <= byte_len(s) <= 4 * s.len(),
    decreases s.len(),
{
    if s.len() > 0 {
        lemma_byte_len_bounds(s.drop_first());
    }
}

/// Whether `c` has the Unicode property White_Space: the controls from tab
/// to carriage return, the blank, next line, the no-break blank, the ogham
/// space mark, the blanks of a fixed width from en quad to hair space, line
/// and paragraph separator, the narrow no-break blank, the medium
/// mathematical blank and the ideographic blank.
pub open spec fn is_whitespace(c: char) -> bool {
    ||| '\u{9}' <= c <= '\u{d}'
    ||| c == ' '
    ||| c == '\u{85}'
    ||| c == '\u{a0}'
    ||| c == '\u{1680}'
    ||| '\u{2000}' <= c <= '\u{200a}'
    ||| c == '\u{2028}'
    ||| c == '\u{2029}'
    ||| c == '\u{202f}'
    ||| c == '\u{205f}'
    ||| c == '\u{3000}'
}

/// `char::is_whitespace` of the standard library: whether `c` has the
/// Unicode property White_Space.
#[verifier::external_body]
pub(crate) fn char_is_whitespace(c: char) -> (r: bool)
    ensures
        r == is_whitespace(c),
{
    c.is_whitespace()
}

/// `s` without its leading white space.
pub open spec fn trim_start(s: Seq<char>) -> Seq<char>
    decreases s.len(),
{
    if s.len() > 0 && is_whitespace(s.first()) {
        trim_start(s.drop_first())
    } else {
        s
    }
}

/// `s` without its trailing white space.
pub open spec fn trim_end(s: Seq<char>) -> Seq<char>
    decreases s.len(),
{
    if s.len() > 0 && is_whitespace(s.last()) {
        trim_end(s.drop_last())
    } else {
        s
    }
}

/// `s` without leading and trailing white space.
pub open spec fn trimmed(s: Seq<char>) -> Seq<char> {
    trim_end(trim_start(s))
}

/// Every character of `s` is white space.
pub open spec fn all_whitespace(s: Seq<char>) -> bool {
    forall|i: int| 0 <= i < s.len() ==> is_whitespace(#[trigger] s[i])
}

/// Leading white space is dropped up to the first character that is none.
pub proof fn lemma_trim_start(s: Seq<char>, first: int)
    requires
        0 <= first <= s.len(),
        all_whitespace(s.take(first)),
        first < s.len() ==> !is_whitespace(s[first]),
    ensures
        trim_start(s) == s.skip(first),
    decreases first,
{
    if first == 0 {
        assert(s.skip(0) == s);
    } else {
        assert(s.take(first)[0] == s[0]);
        let rest = s.drop_first();
        assert forall|i: int| 0 <= i < first - 1 implies is_whitespace(
            #[trigger] rest.take(first - 1)[i],
        ) by {
            assert(rest.take(first - 1)[i] == s.take(first)[i + 1]);
        }
        lemma_trim_start(rest, first - 1);
        assert(rest.skip(first - 1) == s.skip(first));
    }
}

/// Trailing white space is dropped down to the last character that is none.
pub proof fn lemma_trim_end(s: Seq<char>, end: int)
    requires
        0 <= end <= s.len(),
        all_whitespace(s.skip(end)),
        end > 0 ==> !is_whitespace(s[end - 1]),
    ensures
        trim_end(s) == s.take(end),
    decreases s.len() - end,
{
    if end == s.len() {
        assert(s.take(end) == s);
    } else {
        assert(s.skip(end)[s.len() - end - 1] == s.last());
        let rest = s.drop_last();
        assert forall|i: int| 0 <= i < rest.len() - end implies is_whitespace(
            #[trigger] rest.skip(end)[i],
        ) by {
            assert(rest.skip(end)[i] == s.skip(end)[i]);
        }
        lemma_trim_end(rest, end);
        assert(rest.take(end) == s.take(end));
    }
}

/// A text that neither begins nor ends with white space trims to itself.
pub proof fn lemma_trimmed_whole(s: Seq<char>)
    requires
        s.len() > 0 ==> !is_whitespace(s.first()) && !is_whitespace(s.last()),
    ensures
        trimmed(s) == s,
{
}

/// A text of white space alone trims to nothing, and only such a text does.
pub proof fn lemma_trimmed_empty(s: Seq<char>)
    ensures
        trimmed(s).len() == 0 <==> all_whitespace(s),
    decreases s.len(),
{
    if s.len() == 0 {
    } else if is_whitespace(s.first()) {
        lemma_trimmed_empty(s.drop_first());
        if all_whitespace(s.drop_first()) {
            assert forall|i: int| 0 <= i < s.len() implies is_whitespace(#[trigger] s[i]) by {
                if i > 0 {
                    assert(s[i] == s.drop_first()[i - 1]);
                }
            }
        }
        if all_whitespace(s) {
            assert forall|i: int| 0 <= i < s.len() - 1 implies is_whitespace(
                #[trigger] s.drop_first()[i],
            ) by {
                assert(s.drop_first()[i] == s[i + 1]);
            }
        }
    } else {
        assert(trim_start(s) == s);
        lemma_trim_end_keeps_first(s);
    }
}

proof fn lemma_trim_end_keeps_first(s: Seq<char>)
    requires
        s.len() > 0,
        !is_whitespace(s.first()),
    ensures
        trim_end(s).len() > 0,
    decreases s.len(),
{
    if is_whitespace(s.last()) {
        assert(s.len() > 1);
        assert(s.drop_last().first() == s.first());
        lemma_trim_end_keeps_first(s.drop_last());
    }
}

/// `s` without leading and trailing white space, as a text of its own.
pub fn trim(s: &str) -> (r: String)
    ensures
        r@ == trimmed(s@),
{
    broadcast use vstd::string::group_string_axioms;

    // a text has no more characters than bytes
    let limit = s.as_bytes().len();
    proof {
        lemma_byte_len_bounds(s@);
    }
    let mut seen = false;
    let mut first: usize = 0;
    let mut end: usize = 0;
    let mut at: usize = 0;
    for c in it: s.chars()
        invariant
            it.seq() == s@,
            at == it.index(),
            at <= s@.len() <= limit,
            !seen ==> all_whitespace(s@.take(at as int)) && first == 0 && end == 0,
            seen ==> first < end <= at && all_whitespace(s@.take(first as int)) && !is_whitespace(
                s@[first as int],
            ) && !is_whitespace(s@[end - 1]) && all_whitespace(s@.subrange(end as int, at as int)),
    {
        let white = char_is_whitespace(c);
        proof {
            if white && seen {
                assert forall|i: int| 0 <= i < at + 1 - end implies is_whitespace(
                    #[trigger] s@.subrange(end as int, at + 1)[i],
                ) by {
                    if i < at - end {
                        assert(s@.subrange(end as int, at as int)[i] == s@[end + i]);
                    }
                }
            }
            if white && !seen {
                assert forall|i: int| 0 <= i < at + 1 implies is_whitespace(
                    #[trigger] s@.take(at + 1)[i],
                ) by {
                    if i < at {
                        assert(s@.take(at as int)[i] == s@[i]);
                    }
                }
            }
        }
        if !white {
            if !seen {
                seen = true;
                first = at;
            }
            end = at + 1;
            assert(s@.subrange(end as int, at + 1).len() == 0);
        }
        at = at + 1;
    }
    if !seen {
        proof {
            assert(s@.take(s@.len() as int) == s@);
            lemma_trimmed_empty(s@);
        }
        return String::new();
    }
    proof {
        lemma_trim_start(s@, first as int);
        let t = s@.skip(first as int);
        assert forall|i: int| 0 <= i < t.len() - (end - first) implies is_whitespace(
            #[trigger] t.skip(end - first)[i],
        ) by {
            assert(t.skip(end - first)[i] == s@.subrange(end as int, at as int)[i]);
        }
        assert(t[end - first - 1] == s@[end - 1]);
        lemma_trim_end(t, end - first);
        assert(t.take(end - first) == s@.subrange(first as int, end as int));
    }
    s.substring_char(first, end).to_owned()
}


/// The number of bytes of `s`.
pub fn byte_count(s: &str) -> (n: usize)
    ensures
        n == byte_len(s@),
{
    s.as_bytes().len()
}

/// A place in a prefix of a text lies between two characters of the prefix
/// where it does so in the text, if the prefix ends between two characters.
pub proof fn lemma_boundary_in_prefix(bytes: Seq<u8>, from: int, to: int)
    requires
        valid_utf8(bytes),
        0 <= from <= to <= bytes.len(),
        is_char_boundary(bytes, from),
        is_char_boundary(bytes, to),
    ensures
        valid_utf8(bytes.subrange(0, to)),
        is_char_boundary(bytes.subrange(0, to), from),
{
    let prefix = bytes.subrange(0, to);
    valid_utf8_split(bytes, to);
    if from < to {
        assert(prefix[from] == bytes[from]);
        is_char_boundary_iff_not_is_continuation_byte(bytes, from);
        is_char_boundary_iff_not_is_continuation_byte(prefix, from);
    } else {
        is_char_boundary_start_end_of_seq(prefix);
    }
}

/// The part of `text` from byte `from` up to byte `to`.
pub fn byte_slice<'a>(text: &'a str, from: usize, to: usize) -> (part: &'a str)
    requires
        from <= to <= byte_len(text@),
        is_char_boundary(encode_utf8(text@), from as int),
        is_char_boundary(encode_utf8(text@), to as int),
    ensures
        encode_utf8(part@) == encode_utf8(text@).subrange(from as int, to as int),
{
    let ghost bytes = encode_utf8(text@);
    proof {
        encode_utf8_valid_utf8(text@);
        lemma_boundary_in_prefix(bytes, from as int, to as int);
    }
    let (head, _) = text.split_at(to);
    let (_, part) = head.split_at(from);
    assert(bytes.subrange(0, to as int).subrange(from as int, to as int) == bytes.subrange(
        from as int,
        to as int,
    ));
    part
}


/// `String::push` of the standard library: the character is appended.
#[verifier::external_body]
pub(crate) fn push_char(text: &mut String, c: char)
    ensures
        final(text)@ == old(text)@.push(c),
{
    text.push(c)
}

/// The characters of `text`.
pub fn chars_of(text: &str) -> (chars: Vec<char>)
    ensures
        chars@ == text@,
{
    broadcast use vstd::string::group_string_axioms;

    let mut chars: Vec<char> = Vec::new();
    for c in it: text.chars()
        invariant
            it.seq() == text@,
            chars@ == text@.take(it.index()),
    {
        chars.push(c);
        assert(text@.take(it.index() + 1) == text@.take(it.index()).push(c));
    }
    assert(text@.take(text@.len() as int) == text@);
    chars
}

/// The text made of the characters from `from` up to `to`.
pub fn text_of(chars: &Vec<char>, from: usize, to: usize) -> (text: String)
    requires
        from <= to <= chars.len(),
    ensures
        text@ == chars@.subrange(from as int, to as int),
{
    let mut text = String::new();
    let mut i = from;
    while i < to
        invariant
            from <= i <= to <= chars.len(),
            text@ == chars@.subrange(from as int, i as int),
        decreases to - i,
    {
        push_char(&mut text, chars[i]);
        assert(chars@.subrange(from as int, i + 1) == chars@.subrange(from as int, i as int).push(
            chars@[i as int],
        ));
        i = i + 1;
    }
    text
}


/// Whether `text` ends with `c`.
pub fn ends_with_char(text: &str, c: char) -> (r: bool)
    ensures
        r == (text@.len() > 0 && text@.last() == c),
{
    let chars = chars_of(text);
    chars.len() > 0 && chars[chars.len() - 1] == c
}

/// `text` in small letters, as Unicode maps it.
pub uninterp spec fn lowercase(text: Seq<char>) -> Seq<char>;

/// `str::to_lowercase` of the standard library: the text in small letters,
/// which this library leaves abstract.
#[verifier::external_body]
pub(crate) fn to_lowercase(text: &str) -> (r: String)
    ensures
        r@ == lowercase(text@),
{
    text.to_lowercase()
}

} // verus!
