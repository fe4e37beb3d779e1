//! Splitting a text into chunks that overlap.
//!
//! Sizes are counted in bytes of UTF-8, and a chunk is always a run of whole
//! characters: a cut that would fall inside a character is not made.

use crate::segment::{
    lemma_views_push, paragraphs, sentences, split_paragraphs, split_sentences, views,
};
use crate::text::{
    byte_count, byte_len, byte_slice, chars_of, ends_with_char, text_of, trim, trimmed,
};
use vstd::arithmetic::div_mod::lemma_fundamental_div_mod_converse;
use vstd::prelude::*;
use vstd::string::*;
use vstd::utf8::*;

verus! {

/// How a text is chunked.
#[derive(Debug)]
pub struct ChunkingConfig {
    /// The size that a chunk aims at.
    pub chunk_size: usize,
    /// How much of a chunk is repeated at the start of the next one.
    pub chunk_overlap: usize,
    /// What stands between two paragraphs.
    pub paragraph_separator: String,
    /// What stands between two sentences.
    pub sentence_separator: String,
    /// The size under which a chunk is too small to stand alone.
    pub min_chunk_size: usize,
}

impl Clone for ChunkingConfig {
    fn clone(&self) -> (r: Self)
        ensures
            r.chunk_size == self.chunk_size,
            r.chunk_overlap == self.chunk_overlap,
            r.paragraph_separator@ == self.paragraph_separator@,
            r.sentence_separator@ == self.sentence_separator@,
            r.min_chunk_size == self.min_chunk_size,
    {
        ChunkingConfig {
            chunk_size: self.chunk_size,
            chunk_overlap: self.chunk_overlap,
            paragraph_separator: self.paragraph_separator.clone(),
            sentence_separator: self.sentence_separator.clone(),
            min_chunk_size: self.min_chunk_size,
        }
    }
}

impl Default for ChunkingConfig {
    fn default() -> (r: Self)
        ensures
            r.chunk_size == 1024,
            r.chunk_overlap == 200,
            r.paragraph_separator@ == "\n\n"@,
            r.sentence_separator@ == ". "@,
            r.min_chunk_size == 100,
    {
        ChunkingConfig {
            chunk_size: 1024,
            chunk_overlap: 200,
            paragraph_separator: "\n\n".to_owned(),
            sentence_separator: ". ".to_owned(),
            min_chunk_size: 100,
        }
    }
}

/// The encodings of `texts`, one for one.
pub open spec fn encoded(texts: Seq<String>) -> Seq<Seq<u8>> {
    Seq::new(texts.len(), |i: int| encode_utf8(texts[i]@))
}

/// Cuts a text into chunks of one size, each starting a fixed stride after
/// the one before, whatever the text says.
#[derive(Debug, Clone, Copy)]
pub struct SimpleTextSplitter {
    chunk_size: usize,
    chunk_overlap: usize,
}

impl SimpleTextSplitter {
    #[verifier::type_invariant]
    spec fn overlap_below_size(self) -> bool {
        self.chunk_overlap < self.chunk_size
    }

    /// The size of a chunk in bytes; the last chunks may be shorter.
    pub closed spec fn size(&self) -> int {
        self.chunk_size as int
    }

    /// The bytes that two neighbouring chunks share.
    pub closed spec fn overlap(&self) -> int {
        self.chunk_overlap as int
    }

    /// The distance from the start of one chunk to the start of the next.
    pub open spec fn stride(&self) -> int {
        self.size() - self.overlap()
    }

    /// The number of chunks of a text of `len` bytes: one for each stride
    /// begun.
    pub open spec fn count(&self, len: int) -> int {
        (len + self.stride() - 1) / self.stride()
    }

    /// Where chunk `k` starts.
    pub open spec fn start_of(&self, k: int) -> int {
        k * self.stride()
    }

    /// Where chunk `k` of a text of `len` bytes ends.
    pub open spec fn end_of(&self, k: int, len: int) -> int {
        if self.start_of(k) + self.size() < len {
            self.start_of(k) + self.size()
        } else {
            len
        }
    }

    /// The chunks of `bytes`.
    pub open spec fn chunks(&self, bytes: Seq<u8>) -> Seq<Seq<u8>> {
        Seq::new(
            self.count(bytes.len() as int) as nat,
            |k: int| bytes.subrange(self.start_of(k), self.end_of(k, bytes.len() as int)),
        )
    }

    /// Whether every chunk of `bytes` starts and ends between two
    /// characters.
    pub open spec fn splits(&self, bytes: Seq<u8>) -> bool {
        forall|k: int|
            0 <= k < self.count(bytes.len() as int) ==> is_char_boundary(
                bytes,
                #[trigger] self.start_of(k),
            ) && is_char_boundary(bytes, self.end_of(k, bytes.len() as int))
    }

    /// A splitter for chunks of `chunk_size` bytes of which neighbours share
    /// `chunk_overlap`.
    pub fn new(chunk_size: usize, chunk_overlap: usize) -> (r: Self)
        requires
            chunk_overlap < chunk_size,
        ensures
            r.size() == chunk_size,
            r.overlap() == chunk_overlap,
    {
        SimpleTextSplitter { chunk_size, chunk_overlap }
    }

    /// The size of a chunk in bytes.
    pub fn chunk_size(&self) -> (r: usize)
        ensures
            r == self.size(),
            r > self.overlap(),
    {
        proof {
            use_type_invariant(self);
        }
        self.chunk_size
    }

    /// The bytes that two neighbouring chunks share.
    pub fn chunk_overlap(&self) -> (r: usize)
        ensures
            r == self.overlap(),
            r < self.size(),
    {
        proof {
            use_type_invariant(self);
        }
        self.chunk_overlap
    }

    /// Whether `text` can be split: whether no cut falls inside a character.
    pub fn can_split(&self, text: &str) -> (r: bool)
        ensures
            r == self.splits(encode_utf8(text@)),
    {
        proof {
            use_type_invariant(self);
        }
        let ghost bytes = encode_utf8(text@);
        let len = byte_count(text);
        let stride = self.chunk_size - self.chunk_overlap;
        let mut start: usize = 0;
        let ghost mut k: int = 0;
        proof {
            lemma_start_of(self.stride(), 0);
        }
        loop
            invariant_except_break
                self.overlap_below_size(),
                bytes == encode_utf8(text@),
                len == bytes.len(),
                stride == self.stride(),
                start == self.start_of(k),
                0 <= k,
                k > 0 ==> self.start_of(k - 1) < len,
                forall|j: int|
                    0 <= j < k ==> is_char_boundary(bytes, #[trigger] self.start_of(j))
                        && is_char_boundary(bytes, self.end_of(j, len as int)),
            ensures
                self.splits(bytes),
            decreases len - start,
        {
            if start >= len {
                proof {
                    lemma_count(len as int, self.stride(), k);
                }
                break ;
            }
            let end = if self.chunk_size >= len - start {
                len
            } else {
                start + self.chunk_size
            };
            if !text.is_char_boundary(start) || !text.is_char_boundary(end) {
                proof {
                    lemma_count_above(len as int, self.stride(), k);
                    assert(!is_char_boundary(bytes, self.start_of(k)) || !is_char_boundary(
                        bytes,
                        self.end_of(k, len as int),
                    ));
                }
                return false;
            }
            proof {
                lemma_start_of(self.stride(), k + 1);
            }
            if stride >= len - start {
                proof {
                    lemma_count(len as int, self.stride(), k + 1);
                }
                break ;
            }
            start = start + stride;
            proof {
                k = k + 1;
            }
        }
        true
    }

    /// Splits `text`: chunk `k` holds the bytes from `k` strides on, `size`
    /// of them or as many as are left, and there is a chunk for every stride
    /// that begins inside the text.
    pub fn split_text(&self, text: &str) -> (chunks: Vec<String>)
        requires
            self.splits(encode_utf8(text@)),
        ensures
            encoded(chunks@) == self.chunks(encode_utf8(text@)),
    {
        proof {
            use_type_invariant(self);
        }
        let ghost bytes = encode_utf8(text@);
        let len = byte_count(text);
        let stride = self.chunk_size - self.chunk_overlap;
        let mut chunks: Vec<String> = Vec::new();
        let mut start: usize = 0;
        proof {
            lemma_start_of(self.stride(), 0);
        }
        loop
            invariant_except_break
                self.overlap_below_size(),
                self.splits(bytes),
                bytes == encode_utf8(text@),
                len == bytes.len(),
                stride == self.stride(),
                start == self.start_of(chunks.len() as int),
                chunks.len() > 0 ==> self.start_of(chunks.len() - 1) < len,
                forall|j: int|
                    0 <= j < chunks.len() ==> encode_utf8(#[trigger] chunks@[j]@)
                        == bytes.subrange(self.start_of(j), self.end_of(j, len as int)),
            ensures
                chunks.len() == self.count(len as int),
                forall|j: int|
                    0 <= j < chunks.len() ==> encode_utf8(#[trigger] chunks@[j]@)
                        == bytes.subrange(self.start_of(j), self.end_of(j, len as int)),
            decreases len - start,
        {
            let ghost k = chunks.len() as int;
            if start >= len {
                proof {
                    lemma_count(len as int, self.stride(), k);
                }
                break ;
            }
            let end = if self.chunk_size >= len - start {
                len
            } else {
                start + self.chunk_size
            };
            proof {
                lemma_count_above(len as int, self.stride(), k);
                assert(is_char_boundary(bytes, self.start_of(k)));
            }
            let chunk = byte_slice(text, start, end).to_owned();
            chunks.push(chunk);
            proof {
                lemma_start_of(self.stride(), k + 1);
            }
            if stride >= len - start {
                proof {
                    lemma_count(len as int, self.stride(), k + 1);
                }
                break ;
            }
            start = start + stride;
        }
        assert(encoded(chunks@) =~= self.chunks(bytes));
        chunks
    }
}

/// Two chunks in a row overlap: what the first holds from one stride on
/// is what the second begins with.
pub proof fn law_chunks_overlap(splitter: SimpleTextSplitter, bytes: Seq<u8>, k: int)
    requires
        0 <= splitter.overlap() < splitter.size(),
        0 <= k,
        k + 1 < splitter.count(bytes.len() as int),
    ensures
        ({
            let first = splitter.chunks(bytes)[k];
            let second = splitter.chunks(bytes)[k + 1];
            &&& splitter.stride() <= first.len() <= splitter.size()
            &&& first.len() - splitter.stride() <= second.len()
            &&& first.skip(splitter.stride()) == second.take(first.len() - splitter.stride())
            &&& (first.len() == splitter.size() ==> first.len() - splitter.stride()
                == splitter.overlap())
        }),
{
    let len = bytes.len() as int;
    let stride = splitter.stride();
    lemma_count_below(len, stride, k);
    lemma_count_below(len, stride, k + 1);
    lemma_start_of(stride, k + 1);
    lemma_start_of(stride, k + 2);
    let first = splitter.chunks(bytes)[k];
    let second = splitter.chunks(bytes)[k + 1];
    assert(first == bytes.subrange(splitter.start_of(k), splitter.end_of(k, len)));
    assert(second == bytes.subrange(splitter.start_of(k + 1), splitter.end_of(k + 1, len)));
    assert(first.skip(stride) =~= second.take(first.len() - stride));
}

/// A text of ASCII alone can be split by every splitter.
pub proof fn lemma_ascii_splits(splitter: SimpleTextSplitter, text: Seq<char>)
    requires
        is_ascii_chars(text),
        0 <= splitter.overlap() < splitter.size(),
    ensures
        splitter.splits(encode_utf8(text)),
{
    let bytes = encode_utf8(text);
    let len = bytes.len() as int;
    encode_utf8_valid_utf8(text);
    is_ascii_chars_encode_utf8(text);
    assert forall|k: int| 0 <= k < splitter.count(len) implies is_char_boundary(
        bytes,
        #[trigger] splitter.start_of(k),
    ) && is_char_boundary(bytes, splitter.end_of(k, len)) by {
        lemma_count_below(len, splitter.stride(), k);
        lemma_ascii_boundary(text, splitter.start_of(k));
        lemma_ascii_boundary(text, splitter.end_of(k, len));
    }
}

/// In a text of ASCII alone every place lies between two characters.
pub proof fn lemma_ascii_boundary(text: Seq<char>, at: int)
    requires
        is_ascii_chars(text),
        0 <= at <= text.len(),
    ensures
        is_char_boundary(encode_utf8(text), at),
{
    let bytes = encode_utf8(text);
    encode_utf8_valid_utf8(text);
    is_ascii_chars_encode_utf8(text);
    if at < bytes.len() {
        is_char_boundary_iff_is_leading_byte(bytes, at);
        let b = bytes[at];
        assert(text[at] as u8 == b);
        assert(0 <= b <= 0x7f);
    } else {
        is_char_boundary_start_end_of_seq(bytes);
    }
}

proof fn lemma_start_of(stride: int, k: int)
    ensures
        k * stride == (k - 1) * stride + stride,
        0 * stride == 0,
{
    assert(k * stride == (k - 1) * stride + stride) by (nonlinear_arith);
}

/// The chunks are counted once the strides have covered the text.
proof fn lemma_count(len: int, stride: int, n: int)
    requires
        stride > 0,
        len >= 0,
        n >= 0,
        n * stride >= len,
        n > 0 ==> (n - 1) * stride < len,
    ensures
        (len + stride - 1) / stride == n,
{
    if n == 0 {
        assert(len == 0);
        lemma_fundamental_div_mod_converse(len + stride - 1, stride, 0, stride - 1);
    } else {
        lemma_start_of(stride, n);
        lemma_fundamental_div_mod_converse(len + stride - 1, stride, n, len - 1 - (n - 1) * stride);
    }
}

/// A stride that begins inside the text is one of those counted.
proof fn lemma_count_above(len: int, stride: int, k: int)
    requires
        stride > 0,
        k >= 0,
        k * stride < len,
    ensures
        k < (len + stride - 1) / stride,
{
    let n = (len + stride - 1) / stride;
    vstd::arithmetic::div_mod::lemma_fundamental_div_mod(len + stride - 1, stride);
    vstd::arithmetic::div_mod::lemma_mod_bound(len + stride - 1, stride);
    if n <= k {
        assert(n * stride <= k * stride) by (nonlinear_arith)
            requires
                n <= k,
                stride > 0,
        ;
        assert(stride * n == n * stride) by (nonlinear_arith);
    }
}

/// A stride that is counted begins inside the text.
proof fn lemma_count_below(len: int, stride: int, k: int)
    requires
        stride > 0,
        len >= 0,
        0 <= k < (len + stride - 1) / stride,
    ensures
        0 <= k * stride < len,
{
    let n = (len + stride - 1) / stride;
    vstd::arithmetic::div_mod::lemma_fundamental_div_mod(len + stride - 1, stride);
    vstd::arithmetic::div_mod::lemma_mod_bound(len + stride - 1, stride);
    assert((k + 1) * stride <= n * stride) by (nonlinear_arith)
        requires
            k + 1 <= n,
            stride > 0,
    ;
    assert(stride * n == n * stride) by (nonlinear_arith);
    assert((k + 1) * stride == k * stride + stride) by (nonlinear_arith);
    assert(0 <= k * stride) by (nonlinear_arith)
        requires
            0 <= k,
            stride > 0,
    ;
}


/// What follows the first full stop and blank in `text`, if `text` holds
/// the two in a row.
pub open spec fn after_break(text: Seq<char>) -> Option<Seq<char>>
    decreases text.len(),
{
    if text.len() < 2 {
        None
    } else if text[0] == '.' && text[1] == ' ' {
        Some(text.skip(2))
    } else {
        after_break(text.drop_first())
    }
}

/// What a chunk hands on to the next one: all of it where it is no longer
/// than `overlap` bytes, else its last `overlap` bytes, and of those only
/// what follows the first full stop and blank, if there is one. A chunk
/// whose last `overlap` bytes begin inside a character hands on nothing
/// that could be named.
pub open spec fn overlap_text(text: Seq<char>, overlap: nat) -> Option<Seq<char>> {
    let bytes = encode_utf8(text);
    if bytes.len() <= overlap {
        Some(text)
    } else if !is_char_boundary(bytes, bytes.len() - overlap) {
        None
    } else {
        let tail = decode_utf8(bytes.subrange(bytes.len() - overlap, bytes.len() as int));
        match after_break(tail) {
            Some(rest) => Some(rest),
            None => Some(tail),
        }
    }
}

/// A chunk grown by one more item. Paragraphs are joined by their
/// separator, sentences by a blank, unless one is there.
pub open spec fn joined(current: Seq<char>, item: Seq<char>, separator: Option<Seq<char>>) -> Seq<
    char,
> {
    match separator {
        Some(between) => if current.len() > 0 {
            current + between + item
        } else {
            current + item
        },
        None => if current.len() > 0 && current.last() != ' ' {
            current.push(' ') + item
        } else {
            current + item
        },
    }
}

/// A chunk as it is put out: trimmed, and not at all where nothing is left
/// of it then.
pub open spec fn flushed(current: Seq<char>) -> Seq<Seq<char>> {
    if trimmed(current).len() > 0 {
        seq![trimmed(current)]
    } else {
        Seq::empty()
    }
}

/// The chunks made of `items`, the chunk under way being `current`. An
/// item that would take a chunk past `size` bytes closes the chunk first,
/// and the next one begins with what the closed one hands on. There are
/// no chunks where a chunk has nothing to hand on that could be named.
pub open spec fn packed(
    size: nat,
    overlap: nat,
    separator: Option<Seq<char>>,
    items: Seq<Seq<char>>,
    current: Seq<char>,
) -> Option<Seq<Seq<char>>>
    decreases items.len(),
{
    if items.len() == 0 {
        Some(flushed(current))
    } else if byte_len(current) + byte_len(items.first()) > size && current.len() > 0 {
        match overlap_text(current, overlap) {
            Some(carried) => match packed(
                size,
                overlap,
                separator,
                items.drop_first(),
                joined(carried, items.first(), separator),
            ) {
                Some(rest) => Some(flushed(current) + rest),
                None => None,
            },
            None => None,
        }
    } else {
        packed(
            size,
            overlap,
            separator,
            items.drop_first(),
            joined(current, items.first(), separator),
        )
    }
}

/// The chunks of a text that is one paragraph: its sentences, packed. A
/// text without a sentence is its own single chunk.
pub open spec fn sentence_chunks_of(size: nat, overlap: nat, text: Seq<char>) -> Option<
    Seq<Seq<char>>,
> {
    if sentences(text).len() == 0 {
        Some(seq![text])
    } else {
        packed(size, overlap, None, sentences(text), Seq::empty())
    }
}

/// The chunks of `text` for chunks of `size` bytes that may repeat
/// `overlap` bytes: its paragraphs, packed, or its sentences, packed, where
/// it is one paragraph. There are none that could be named where an overlap
/// would begin inside a character.
pub open spec fn chunks_of(size: nat, overlap: nat, separator: Seq<char>, text: Seq<char>) -> Option<
    Seq<Seq<char>>,
> {
    let found = paragraphs(text, separator);
    if found.len() == 1 {
        sentence_chunks_of(size, overlap, text)
    } else {
        packed(size, overlap, Some(separator), found, Seq::empty())
    }
}

/// Computes [`overlap_text`].
pub fn carry_over(text: &str, overlap: usize) -> (r: Option<String>)
    ensures
        match r {
            Some(carried) => overlap_text(text@, overlap as nat) == Some(carried@),
            None => overlap_text(text@, overlap as nat) is None,
        },
{
    let ghost bytes = encode_utf8(text@);
    let len = byte_count(text);
    if len <= overlap {
        return Some(text.to_owned());
    }
    let start = len - overlap;
    if !text.is_char_boundary(start) {
        return None;
    }
    proof {
        encode_utf8_valid_utf8(text@);
        is_char_boundary_start_end_of_seq(bytes);
    }
    let tail = byte_slice(text, start, len);
    proof {
        encode_utf8_decode_utf8(tail@);
    }
    let chars = chars_of(tail);
    let n = chars.len();
    let mut i: usize = 0;
    let ghost expected = overlap_text(text@, overlap as nat);
    assert(chars@.skip(0) == chars@);
    while n >= 2 && i <= n - 2
        invariant
            n == chars.len(),
            i <= n,
            after_break(chars@) == after_break(chars@.skip(i as int)),
            expected == overlap_text(text@, overlap as nat),
            expected == match after_break(chars@) {
                Some(rest) => Some(rest),
                None => Some(chars@),
            },
        decreases n - i,
    {
        let ghost rest = chars@.skip(i as int);
        assert(rest[0] == chars@[i as int] && rest[1] == chars@[i + 1]);
        if chars[i] == '.' && chars[i + 1] == ' ' {
            assert(rest.skip(2) == chars@.subrange(i + 2, n as int));
            assert(after_break(rest) == Some(rest.skip(2)));
            return Some(text_of(&chars, i + 2, n));
        }
        assert(rest.drop_first() == chars@.skip(i + 1));
        i = i + 1;
    }
    Some(tail.to_owned())
}

/// Computes [`joined`].
fn join(current: &mut String, item: &str, separator: Option<&str>)
    ensures
        final(current)@ == joined(
            old(current)@,
            item@,
            match separator {
                Some(between) => Some(between@),
                None => None,
            },
        ),
{
    match separator {
        Some(between) => {
            if !current.as_str().is_empty() {
                current.append(between);
            }
        },
        None => {
            if !current.as_str().is_empty() && !ends_with_char(current.as_str(), ' ') {
                proof {
                    reveal_strlit(" ");
                }
                current.append(" ");
                assert(current@ =~= old(current)@.push(' '));
            }
        },
    }
    current.append(item);
}

/// Puts `current` out as a chunk, if anything is left of it once trimmed.
fn flush(chunks: &mut Vec<String>, current: &str)
    ensures
        views(final(chunks)@) == views(old(chunks)@) + flushed(current@),
{
    let chunk = trim(current);
    if !chunk.as_str().is_empty() {
        proof {
            lemma_views_push(chunks@, chunk);
        }
        chunks.push(chunk);
    } else {
        assert(views(chunks@) + flushed(current@) =~= views(chunks@));
    }
}

/// Computes [`packed`] for a chunk that is yet to begin.
pub fn pack(size: usize, overlap: usize, separator: Option<&str>, items: &Vec<String>) -> (r:
    Option<Vec<String>>)
    ensures
        match r {
            Some(chunks) => packed(
                size as nat,
                overlap as nat,
                match separator {
                    Some(between) => Some(between@),
                    None => None,
                },
                views(items@),
                Seq::empty(),
            ) == Some(views(chunks@)),
            None => packed(
                size as nat,
                overlap as nat,
                match separator {
                    Some(between) => Some(between@),
                    None => None,
                },
                views(items@),
                Seq::empty(),
            ) is None,
        },
{
    let ghost between = match separator {
        Some(between) => Some(between@),
        None => None,
    };
    let ghost all = views(items@);
    let ghost goal = packed(size as nat, overlap as nat, between, all, Seq::empty());
    let mut chunks: Vec<String> = Vec::new();
    let mut current = String::new();
    let n = items.len();
    let mut i: usize = 0;
    assert(all.skip(0) == all);
    assert(views(chunks@) =~= Seq::<Seq<char>>::empty());
    proof {
        let found = packed(size as nat, overlap as nat, between, all.skip(0), current@);
        if found is Some {
            assert(views(chunks@) + found->0 =~= found->0);
        }
    }
    while i < n
        invariant
            n == items.len(),
            i <= n,
            all == views(items@),
            between == match separator {
                Some(between) => Some(between@),
                None => None,
            },
            goal == packed(size as nat, overlap as nat, between, all, Seq::empty()),
            goal == match packed(
                size as nat,
                overlap as nat,
                between,
                all.skip(i as int),
                current@,
            ) {
                Some(rest) => Some(views(chunks@) + rest),
                None => None,
            },
        decreases n - i,
    {
        let ghost rest = all.skip(i as int);
        let ghost before = views(chunks@);
        let ghost held = current@;
        assert(rest.first() == items@[i as int]@);
        assert(rest.drop_first() == all.skip(i + 1));
        let item = items[i].as_str();
        let item_size = byte_count(item);
        let current_size = byte_count(current.as_str());
        if (item_size > size || current_size > size - item_size) && !current.as_str().is_empty() {
            let carried = carry_over(current.as_str(), overlap);
            match carried {
                None => {
                    assert(packed(size as nat, overlap as nat, between, rest, held) is None);
                    return None;
                },
                Some(text) => {
                    flush(&mut chunks, current.as_str());
                    current = text;
                },
            }
            join(&mut current, item, separator);
            proof {
                let tail = packed(size as nat, overlap as nat, between, all.skip(i + 1), current@);
                if tail is Some {
                    assert(views(chunks@) + tail->0 =~= before + (flushed(held) + tail->0));
                }
            }
        } else {
            join(&mut current, item, separator);
        }
        i = i + 1;
    }
    assert(all.skip(n as int).len() == 0);
    flush(&mut chunks, current.as_str());
    Some(chunks)
}

/// Splits a text into chunks along its paragraphs and sentences.
#[derive(Debug)]
pub struct TextChunker {
    config: ChunkingConfig,
}

impl TextChunker {
    /// The size that a chunk aims at, in bytes.
    pub closed spec fn size(&self) -> nat {
        self.config.chunk_size as nat
    }

    /// The bytes of a chunk that the next one may repeat.
    pub closed spec fn overlap(&self) -> nat {
        self.config.chunk_overlap as nat
    }

    /// What stands between two paragraphs.
    pub closed spec fn separator(&self) -> Seq<char> {
        self.config.paragraph_separator@
    }

    /// The chunks of a text that is one paragraph.
    pub open spec fn sentence_chunks(&self, text: Seq<char>) -> Option<Seq<Seq<char>>> {
        sentence_chunks_of(self.size(), self.overlap(), text)
    }

    /// The chunks of paragraphs: the paragraphs, packed.
    pub open spec fn paragraph_chunks(&self, found: Seq<Seq<char>>) -> Option<Seq<Seq<char>>> {
        packed(self.size(), self.overlap(), Some(self.separator()), found, Seq::empty())
    }

    /// The chunks of `text`.
    pub open spec fn chunks(&self, text: Seq<char>) -> Option<Seq<Seq<char>>> {
        chunks_of(self.size(), self.overlap(), self.separator(), text)
    }

    /// The number of chunks that a text of `len` bytes is reckoned to make:
    /// one for each `size - overlap` bytes begun, and one where the two are
    /// equal.
    pub open spec fn estimate(&self, len: nat) -> int {
        if self.size() == self.overlap() {
            1
        } else {
            (len + (self.size() - self.overlap()) - 1) / (self.size() - self.overlap())
        }
    }

    /// A chunker with the usual sizes and separators.
    pub fn new() -> (r: Self)
        ensures
            r.size() == 1024,
            r.overlap() == 200,
            r.separator() == "\n\n"@,
            r.sentence_separator() == ". "@,
            r.min_size() == 100,
    {
        Self::with_config(ChunkingConfig::default())
    }

    /// A chunker with the sizes and separators of `config`.
    pub fn with_config(config: ChunkingConfig) -> (r: Self)
        ensures
            r.size() == config.chunk_size,
            r.overlap() == config.chunk_overlap,
            r.separator() == config.paragraph_separator@,
            r.sentence_separator() == config.sentence_separator@,
            r.min_size() == config.min_chunk_size,
    {
        TextChunker { config }
    }

    /// What the chunker was told stands between two sentences.
    pub closed spec fn sentence_separator(&self) -> Seq<char> {
        self.config.sentence_separator@
    }

    /// The size under which the chunker was told a chunk is too small to
    /// stand alone.
    pub closed spec fn min_size(&self) -> nat {
        self.config.min_chunk_size as nat
    }

    /// Splits one paragraph along its sentences.
    fn chunk_by_sentences(&self, text: &str) -> (r: Option<Vec<String>>)
        ensures
            match r {
                Some(chunks) => self.sentence_chunks(text@) == Some(views(chunks@)),
                None => self.sentence_chunks(text@) is None,
            },
    {
        let found = split_sentences(text);
        if found.len() == 0 {
            let mut chunks: Vec<String> = Vec::new();
            let whole = text.to_owned();
            proof {
                lemma_views_push(chunks@, whole);
            }
            chunks.push(whole);
            assert(views(chunks@) =~= seq![text@]);
            return Some(chunks);
        }
        pack(self.config.chunk_size, self.config.chunk_overlap, None, &found)
    }

    /// Packs paragraphs into chunks.
    fn chunk_by_paragraphs(&self, found: &Vec<String>) -> (r: Option<Vec<String>>)
        ensures
            match r {
                Some(chunks) => self.paragraph_chunks(views(found@)) == Some(views(chunks@)),
                None => self.paragraph_chunks(views(found@)) is None,
            },
    {
        pack(
            self.config.chunk_size,
            self.config.chunk_overlap,
            Some(self.config.paragraph_separator.as_str()),
            found,
        )
    }

    /// Splits `text` into chunks, or says that it cannot be done: that an
    /// overlap would begin inside a character.
    pub fn try_chunk_text(&self, text: &str) -> (r: Option<Vec<String>>)
        ensures
            match r {
                Some(chunks) => self.chunks(text@) == Some(views(chunks@)),
                None => self.chunks(text@) is None,
            },
    {
        let found = split_paragraphs(text, self.config.paragraph_separator.as_str());
        if found.len() == 1 {
            self.chunk_by_sentences(text)
        } else {
            self.chunk_by_paragraphs(&found)
        }
    }

    /// Splits `text` into chunks.
    pub fn chunk_text(&self, text: &str) -> (chunks: Vec<String>)
        requires
            self.chunks(text@) is Some,
        ensures
            self.chunks(text@) == Some(views(chunks@)),
    {
        self.try_chunk_text(text).unwrap()
    }

    /// Splits `text` into chunks and numbers them from 0.
    pub fn chunk_with_metadata(&self, text: &str) -> (numbered: Vec<(String, usize)>)
        requires
            self.chunks(text@) is Some,
        ensures
            numbered@.len() == self.chunks(text@)->0.len(),
            forall|i: int|
                0 <= i < numbered@.len() ==> (#[trigger] numbered@[i]).0@ == self.chunks(
                    text@,
                )->0[i] && numbered@[i].1 == i,
    {
        let mut chunks = self.chunk_text(text);
        let ghost all = views(chunks@);
        let n = chunks.len();
        let mut numbered: Vec<(String, usize)> = Vec::new();
        while chunks.len() > 0
            invariant
                n == all.len(),
                chunks.len() <= n,
                views(chunks@) == all.take(chunks.len() as int),
                numbered.len() == n - chunks.len(),
                forall|i: int|
                    0 <= i < numbered.len() ==> (#[trigger] numbered@[i]).0@ == all[n - 1 - i]
                        && numbered@[i].1 == n - 1 - i,
            decreases chunks.len(),
        {
            let ghost before = chunks@;
            let at = chunks.len() - 1;
            let chunk = chunks.pop().unwrap();
            assert(views(before)[at as int] == chunk@);
            assert(views(chunks@) =~= all.take(chunks.len() as int));
            numbered.push((chunk, at));
        }
        let mut ordered: Vec<(String, usize)> = Vec::new();
        while numbered.len() > 0
            invariant
                numbered.len() <= n,
                ordered.len() == n - numbered.len(),
                forall|i: int|
                    0 <= i < numbered.len() ==> (#[trigger] numbered@[i]).0@ == all[n - 1 - i]
                        && numbered@[i].1 == n - 1 - i,
                forall|i: int|
                    0 <= i < ordered.len() ==> (#[trigger] ordered@[i]).0@ == all[i]
                        && ordered@[i].1 == i,
            decreases numbered.len(),
        {
            let entry = numbered.pop().unwrap();
            ordered.push(entry);
        }
        ordered
    }

    /// Reckons the number of chunks of `text` from its length alone.
    pub fn estimate_chunks(&self, text: &str) -> (r: usize)
        requires
            self.overlap() <= self.size(),
        ensures
            r == self.estimate(byte_len(text@)),
    {
        let len = byte_count(text);
        let effective = self.config.chunk_size - self.config.chunk_overlap;
        if effective == 0 {
            return 1;
        }
        if len == 0 {
            proof {
                lemma_fundamental_div_mod_converse(effective as int - 1, effective as int, 0, effective as int - 1);
            }
            return 0;
        }
        let r = (len - 1) / effective + 1;
        proof {
            let q = (len - 1) as int / effective as int;
            let m = (len - 1) as int % effective as int;
            vstd::arithmetic::div_mod::lemma_fundamental_div_mod(len as int - 1, effective as int);
            vstd::arithmetic::div_mod::lemma_mod_bound(len as int - 1, effective as int);
            assert(effective * q == q * effective) by (nonlinear_arith);
            assert((q + 1) * effective == q * effective + effective) by (nonlinear_arith);
            lemma_fundamental_div_mod_converse(
                len as int + effective as int - 1,
                effective as int,
                q + 1,
                m,
            );
        }
        r
    }
}

impl Default for TextChunker {
    fn default() -> (r: Self)
        ensures
            r.size() == 1024,
            r.overlap() == 200,
            r.separator() == "\n\n"@,
    {
        Self::new()
    }
}


/// Every text of `texts` is ASCII alone.
pub open spec fn all_ascii(texts: Seq<Seq<char>>) -> bool {
    forall|i: int| 0 <= i < texts.len() ==> is_ascii_chars(#[trigger] texts[i])
}

/// The bytes of a text of ASCII alone, from some place on, are the
/// encoding of its characters from that place on.
proof fn lemma_ascii_suffix(text: Seq<char>, from: int)
    requires
        is_ascii_chars(text),
        0 <= from <= text.len(),
    ensures
        encode_utf8(text).len() == text.len(),
        decode_utf8(encode_utf8(text).subrange(from, text.len() as int)) == text.skip(from),
{
    let rest = text.skip(from);
    is_ascii_chars_encode_utf8(text);
    assert(is_ascii_chars(rest)) by {
        assert forall|i: int| 0 <= i < rest.len() implies '\0' <= #[trigger] rest[i] <= '\u{7f}' by {
            assert(rest[i] == text[from + i]);
        }
    }
    is_ascii_chars_encode_utf8(rest);
    assert(encode_utf8(rest) =~= encode_utf8(text).subrange(from, text.len() as int)) by {
        assert forall|i: int| 0 <= i < rest.len() implies encode_utf8(rest)[i] == encode_utf8(
            text,
        )[from + i] by {
            assert(rest[i] == text[from + i]);
        }
    }
    encode_utf8_decode_utf8(rest);
}

/// What follows a full stop and blank is the end of the text.
proof fn lemma_after_break(text: Seq<char>)
    ensures
        after_break(text) matches Some(rest) ==> exists|k: int|
            0 <= k <= text.len() && rest == #[trigger] text.skip(k),
    decreases text.len(),
{
    if text.len() < 2 {
    } else if text[0] == '.' && text[1] == ' ' {
        assert(text.skip(2) == text.skip(2));
    } else {
        lemma_after_break(text.drop_first());
        if after_break(text) is Some {
            let rest = after_break(text)->0;
            let k = choose|k: int|
                0 <= k <= text.drop_first().len() && rest == #[trigger] text.drop_first().skip(k);
            assert(text.drop_first().skip(k) == text.skip(k + 1));
        }
    }
}

/// A chunk of ASCII alone always has something to hand on, and that is
/// ASCII alone as well.
pub proof fn lemma_ascii_overlap(text: Seq<char>, overlap: nat)
    requires
        is_ascii_chars(text),
    ensures
        overlap_text(text, overlap) matches Some(carried) && is_ascii_chars(carried),
{
    let bytes = encode_utf8(text);
    is_ascii_chars_encode_utf8(text);
    if bytes.len() > overlap {
        let start = bytes.len() - overlap;
        lemma_ascii_boundary(text, start);
        lemma_ascii_suffix(text, start);
        let tail = text.skip(start);
        assert(is_ascii_chars(tail)) by {
            assert forall|i: int| 0 <= i < tail.len() implies '\0' <= #[trigger] tail[i]
                <= '\u{7f}' by {
                assert(tail[i] == text[start + i]);
            }
        }
        lemma_after_break(tail);
        if after_break(tail) is Some {
            let rest = after_break(tail)->0;
            let k = choose|k: int| 0 <= k <= tail.len() && rest == #[trigger] tail.skip(k);
            assert forall|i: int| 0 <= i < rest.len() implies '\0' <= #[trigger] rest[i]
                <= '\u{7f}' by {
                assert(rest[i] == tail[k + i]);
            }
        }
    }
}

/// Items of ASCII alone, joined by ASCII alone, can always be packed.
pub proof fn lemma_ascii_packed(
    size: nat,
    overlap: nat,
    separator: Option<Seq<char>>,
    items: Seq<Seq<char>>,
    current: Seq<char>,
)
    requires
        all_ascii(items),
        is_ascii_chars(current),
        separator matches Some(between) ==> is_ascii_chars(between),
    ensures
        packed(size, overlap, separator, items, current) is Some,
    decreases items.len(),
{
    if items.len() > 0 {
        let item = items.first();
        let rest = items.drop_first();
        assert(is_ascii_chars(item)) by {
            assert(items[0] == item);
        }
        assert(all_ascii(rest)) by {
            assert forall|i: int| 0 <= i < rest.len() implies is_ascii_chars(#[trigger] rest[i]) by {
                assert(rest[i] == items[i + 1]);
            }
        }
        let held = if byte_len(current) + byte_len(item) > size && current.len() > 0 {
            lemma_ascii_overlap(current, overlap);
            overlap_text(current, overlap)->0
        } else {
            current
        };
        let next = joined(held, item, separator);
        assert(is_ascii_chars(next)) by {
            assert forall|i: int| 0 <= i < next.len() implies '\0' <= #[trigger] next[i]
                <= '\u{7f}' by {
                match separator {
                    Some(between) => {
                        if held.len() > 0 {
                            if i < held.len() {
                                assert(next[i] == held[i]);
                            } else if i < held.len() + between.len() {
                                assert(next[i] == between[i - held.len()]);
                            } else {
                                assert(next[i] == item[i - held.len() - between.len()]);
                            }
                        } else {
                            assert(next[i] == item[i]);
                        }
                    },
                    None => {
                        if held.len() > 0 && held.last() != ' ' {
                            if i < held.len() {
                                assert(next[i] == held[i]);
                            } else if i == held.len() {
                                assert(next[i] == ' ');
                            } else {
                                assert(next[i] == item[i - held.len() - 1]);
                            }
                        } else if i < held.len() {
                            assert(next[i] == held[i]);
                        } else {
                            assert(next[i] == item[i - held.len()]);
                        }
                    },
                }
            }
        }
        lemma_ascii_packed(size, overlap, separator, rest, next);
    }
}

/// A part of a text of ASCII alone is ASCII alone.
proof fn lemma_ascii_part(text: Seq<char>, from: int, to: int)
    requires
        is_ascii_chars(text),
        0 <= from <= to <= text.len(),
    ensures
        is_ascii_chars(text.subrange(from, to)),
{
    assert forall|i: int| 0 <= i < to - from implies '\0' <= #[trigger] text.subrange(from, to)[i]
        <= '\u{7f}' by {
        assert(text.subrange(from, to)[i] == text[from + i]);
    }
}

/// The sentences of a text of ASCII alone are ASCII alone.
pub proof fn lemma_ascii_sentences(text: Seq<char>)
    requires
        is_ascii_chars(text),
    ensures
        all_ascii(sentences(text)),
    decreases text.len(),
{
    if text.len() == 0 {
    } else if crate::segment::is_terminator(text.first()) {
        lemma_ascii_part(text, 1, text.len() as int);
        assert(text.drop_first() == text.subrange(1, text.len() as int));
        lemma_ascii_sentences(text.drop_first());
    } else {
        crate::segment::lemma_run_bounds(text);
        let n = crate::segment::sentence_length(text) as int;
        lemma_ascii_part(text, 0, n);
        lemma_ascii_part(text, n, text.len() as int);
        assert(text.take(n) == text.subrange(0, n));
        assert(text.skip(n) == text.subrange(n, text.len() as int));
        lemma_ascii_sentences(text.skip(n));
        let found = sentences(text);
        let rest = sentences(text.skip(n));
        assert forall|i: int| 0 <= i < found.len() implies is_ascii_chars(#[trigger] found[i]) by {
            if i > 0 {
                assert(found[i] == rest[i - 1]);
            }
        }
    }
}

/// The paragraphs of a text of ASCII alone are ASCII alone.
pub proof fn lemma_ascii_paragraphs(text: Seq<char>, separator: Seq<char>)
    requires
        is_ascii_chars(text),
    ensures
        all_ascii(paragraphs(text, separator)),
{
    if separator.len() == 0 {
        lemma_ascii_letters(text);
    } else {
        lemma_ascii_pieces(text, separator);
    }
}

proof fn lemma_ascii_letters(text: Seq<char>)
    requires
        is_ascii_chars(text),
    ensures
        all_ascii(crate::segment::letters(text)),
    decreases text.len(),
{
    if text.len() > 0 {
        lemma_ascii_part(text, 1, text.len() as int);
        assert(text.drop_first() == text.subrange(1, text.len() as int));
        lemma_ascii_letters(text.drop_first());
        let found = crate::segment::letters(text);
        let rest = crate::segment::letters(text.drop_first());
        let head = crate::segment::kept(seq![text.first()]);
        assert forall|i: int| 0 <= i < found.len() implies is_ascii_chars(#[trigger] found[i]) by {
            if i < head.len() {
                assert(found[i] == seq![text.first()]);
                assert(text[0] == text.first());
            } else {
                assert(found[i] == rest[i - head.len()]);
            }
        }
    }
}

proof fn lemma_ascii_pieces(text: Seq<char>, separator: Seq<char>)
    requires
        is_ascii_chars(text),
    ensures
        all_ascii(crate::segment::pieces(text, separator)),
    decreases text.len(),
{
    let found = crate::segment::pieces(text, separator);
    match crate::segment::first_occurrence(text, separator) {
        Some(at) => {
            if separator.len() > 0 && 0 <= at && at + separator.len() <= text.len() {
                let after = at + separator.len();
                lemma_ascii_part(text, 0, at);
                lemma_ascii_part(text, after, text.len() as int);
                assert(text.take(at) == text.subrange(0, at));
                assert(text.skip(after) == text.subrange(after, text.len() as int));
                lemma_ascii_pieces(text.skip(after), separator);
                let head = crate::segment::kept(text.take(at));
                let rest = crate::segment::pieces(text.skip(after), separator);
                assert forall|i: int| 0 <= i < found.len() implies is_ascii_chars(
                    #[trigger] found[i],
                ) by {
                    if i < head.len() {
                        assert(found[i] == text.take(at));
                    } else {
                        assert(found[i] == rest[i - head.len()]);
                    }
                }
            }
        },
        None => {},
    }
}

/// A text of ASCII alone can always be chunked, whatever the sizes, where
/// the separator of paragraphs is ASCII alone too.
pub proof fn lemma_ascii_chunks(size: nat, overlap: nat, separator: Seq<char>, text: Seq<char>)
    requires
        is_ascii_chars(text),
        is_ascii_chars(separator),
    ensures
        chunks_of(size, overlap, separator, text) is Some,
{
    lemma_ascii_paragraphs(text, separator);
    lemma_ascii_sentences(text);
    let empty = Seq::<char>::empty();
    lemma_ascii_packed(size, overlap, None, sentences(text), empty);
    lemma_ascii_packed(size, overlap, Some(separator), paragraphs(text, separator), empty);
}

} // verus!
