//! Text helpers over UTF-8 strings, stated against vstd's UTF-8 model.

use vstd::prelude::*;
use vstd::string::*;
use vstd::utf8::*;

verus! {

broadcast use {
    vstd::utf8::encode_utf8_valid_utf8,
    vstd::utf8::encode_utf8_decode_utf8,
    vstd::utf8::is_char_boundary_start_end_of_seq,
};

/// The UTF-8 bytes of a text.
pub open spec fn utf8_bytes(text: Seq<char>) -> Seq<u8> {
    encode_utf8(text)
}

/// `[start, end)` is a range of byte offsets into `text` whose ends both lie
/// on character boundaries, so that slicing `text` with it succeeds.
pub open spec fn is_byte_range(text: Seq<char>, start: int, end: int) -> bool {
    let b = utf8_bytes(text);
    &&& 0 <= start <= end <= b.len()
    &&& is_char_boundary(b, start)
    &&& is_char_boundary(b, end)
}

/// The characters spelled by the bytes `[start, end)` of `text`.
pub open spec fn byte_range_text(text: Seq<char>, start: int, end: int) -> Seq<char> {
    decode_utf8(utf8_bytes(text).subrange(start, end))
}

/// A byte offset of a valid UTF-8 sequence that lies on a character boundary
/// stays one after the bytes before `start` are dropped.
pub proof fn lemma_boundary_after_drop(b: Seq<u8>, start: int, end: int)
    requires
        valid_utf8(b),
        0 <= start <= end <= b.len(),
        is_char_boundary(b, start),
        is_char_boundary(b, end),
    ensures
        valid_utf8(b.subrange(start, b.len() as int)),
        is_char_boundary(b.subrange(start, b.len() as int), end - start),
{
    let t = b.subrange(start, b.len() as int);
    vstd::utf8::valid_utf8_split(b, start);
    if end == b.len() {
        assert(t.len() == end - start);
        vstd::utf8::is_char_boundary_start_end_of_seq(t);
    } else {
        vstd::utf8::is_char_boundary_iff_not_is_continuation_byte(b, end);
        assert(t[end - start] == b[end]);
        vstd::utf8::is_char_boundary_iff_not_is_continuation_byte(t, end - start);
    }
}

/// Copies out the text between the byte offsets `start` and `end` of `text`,
/// as `&text[start..end]` does.
pub fn byte_slice(text: &str, start: usize, end: usize) -> (r: String)
    requires
        is_byte_range(text@, start as int, end as int),
    ensures
        r@ == byte_range_text(text@, start as int, end as int),
{
    let ghost b = utf8_bytes(text@);
    proof {
        lemma_boundary_after_drop(b, start as int, end as int);
    }
    let (_, tail) = text.split_at(start);
    assert(tail.spec_bytes() =~= b.subrange(start as int, b.len() as int));
    let (mid, _) = tail.split_at(end - start);
    assert(mid.spec_bytes() =~= b.subrange(start as int, end as int));
    assert(decode_utf8(encode_utf8(mid@)) == mid@);
    mid.to_owned()
}

/// The number of UTF-8 bytes of `text`.
pub fn byte_len(text: &str) -> (n: usize)
    ensures
        n == utf8_bytes(text@).len(),
{
    broadcast use vstd::slice::axiom_spec_len;
    text.as_bytes().len()
}

/// Whether two texts are the same.
pub fn same_text(a: &str, b: &str) -> (r: bool)
    ensures
        r == (a@ == b@),
{
    let x = a.to_owned();
    let y = b.to_owned();
    x == y
}


/// The number of UTF-8 bytes that encode `c`.
pub open spec fn char_width(c: char) -> int {
    encode_scalar(c as u32).len() as int
}

/// The byte offset at which the character with index `k` of `text` starts.
pub open spec fn byte_offset(text: Seq<char>, k: int) -> int {
    utf8_bytes(text.take(k)).len() as int
}

/// The index of the character that starts at byte offset `b` of `text`.
pub open spec fn char_index_at_byte(text: Seq<char>, b: int) -> int {
    choose|k: int| 0 <= k <= text.len() && byte_offset(text, k) == b
}

/// Encoding a concatenation encodes its parts one after the other.
pub proof fn lemma_encode_concat(a: Seq<char>, b: Seq<char>)
    ensures
        encode_utf8(a + b) == encode_utf8(a) + encode_utf8(b),
    decreases a.len(),
{
    if a.len() == 0 {
        assert(a + b =~= b);
        assert(encode_utf8(a) + encode_utf8(b) =~= encode_utf8(b));
    } else {
        assert((a + b).drop_first() =~= a.drop_first() + b);
        assert((a + b)[0] == a[0]);
        lemma_encode_concat(a.drop_first(), b);
        assert(encode_utf8(a + b) =~= encode_utf8(a) + encode_utf8(b));
    }
}

/// Every character takes one to four bytes.
pub proof fn lemma_char_width_bounds(c: char)
    ensures
        1 <= char_width(c) <= 4,
        char_width(c) == 1 <==> (c as u32) < 0x80,
{
    vstd::utf8::char_is_scalar(c);
}

/// The encoding of a single character.
proof fn lemma_encode_single(c: char)
    ensures
        encode_utf8(seq![c]) == encode_scalar(c as u32),
{
    assert(seq![c].drop_first() =~= Seq::<char>::empty());
    assert(encode_utf8(Seq::<char>::empty()) =~= Seq::<u8>::empty());
    assert(seq![c][0] == c);
    assert(encode_utf8(seq![c]) == encode_scalar(c as u32) + encode_utf8(seq![c].drop_first()));
    assert(encode_utf8(seq![c]) =~= encode_scalar(c as u32));
}

/// The character with index `k` starts where the one before it started, plus
/// that one's width.
pub proof fn lemma_byte_offset_step(text: Seq<char>, k: int)
    requires
        0 <= k < text.len(),
    ensures
        byte_offset(text, k + 1) == byte_offset(text, k) + char_width(text[k]),
{
    assert(text.take(k + 1) =~= text.take(k) + seq![text[k]]);
    lemma_encode_concat(text.take(k), seq![text[k]]);
    lemma_encode_single(text[k]);
}

/// Byte offsets start at 0, grow strictly with the character index and end
/// at the length of the encoding.
pub proof fn lemma_byte_offset_bounds(text: Seq<char>, i: int, j: int)
    requires
        0 <= i <= j <= text.len(),
    ensures
        byte_offset(text, 0) == 0,
        byte_offset(text, text.len() as int) == utf8_bytes(text).len(),
        byte_offset(text, i) <= byte_offset(text, j),
        i < j ==> byte_offset(text, i) < byte_offset(text, j),
        j - i <= byte_offset(text, j) - byte_offset(text, i),
    decreases j - i,
{
    assert(text.take(0) =~= Seq::<char>::empty());
    assert(text.take(text.len() as int) =~= text);
    if i < j {
        lemma_byte_offset_bounds(text, i, j - 1);
        lemma_byte_offset_step(text, j - 1);
        lemma_char_width_bounds(text[j - 1]);
    }
}

/// The encoding of a non-empty text is that of its first character followed
/// by that of the rest.
proof fn lemma_encode_first(text: Seq<char>)
    requires
        text.len() > 0,
    ensures
        length_of_first_scalar(encode_utf8(text)) == char_width(text[0]),
        pop_first_scalar(encode_utf8(text)) == encode_utf8(text.drop_first()),
        valid_first_scalar(encode_utf8(text)),
{
    vstd::utf8::encode_utf8_first_scalar(text);
    let b = encode_utf8(text);
    assert(b == encode_scalar(text[0] as u32) + encode_utf8(text.drop_first()));
    assert(pop_first_scalar(b) =~= encode_utf8(text.drop_first()));
}

/// Offsets in a text are those in the text without its first character,
/// shifted by that character's width.
proof fn lemma_byte_offset_shift(text: Seq<char>, k: int)
    requires
        0 < k <= text.len(),
    ensures
        byte_offset(text, k) == char_width(text[0]) + byte_offset(text.drop_first(), k - 1),
{
    assert(text.take(k) =~= seq![text[0]] + text.drop_first().take(k - 1));
    lemma_encode_concat(seq![text[0]], text.drop_first().take(k - 1));
    lemma_encode_single(text[0]);
}

/// Each character starts on a character boundary of the encoding.
pub proof fn lemma_byte_offset_is_boundary(text: Seq<char>, k: int)
    requires
        0 <= k <= text.len(),
    ensures
        is_char_boundary(utf8_bytes(text), byte_offset(text, k)),
    decreases text.len(),
{
    let b = utf8_bytes(text);
    assert(text.take(0) =~= Seq::<char>::empty());
    if k > 0 {
        lemma_encode_first(text);
        lemma_byte_offset_shift(text, k);
        lemma_byte_offset_bounds(text, k, text.len() as int);
        lemma_byte_offset_is_boundary(text.drop_first(), k - 1);
    }
}

/// Each character boundary of the encoding is where some character starts.
pub proof fn lemma_boundary_is_byte_offset(text: Seq<char>, b: int)
    requires
        is_char_boundary(utf8_bytes(text), b),
    ensures
        exists|k: int| 0 <= k <= text.len() && byte_offset(text, k) == b,
    decreases text.len(),
{
    assert(text.take(0) =~= Seq::<char>::empty());
    if b == 0 {
        assert(byte_offset(text, 0) == 0);
    } else {
        let bytes = utf8_bytes(text);
        if text.len() == 0 {
            assert(bytes.len() == 0);
        } else {
            lemma_encode_first(text);
            lemma_boundary_is_byte_offset(text.drop_first(), b - char_width(text[0]));
            let k = choose|k: int|
                0 <= k <= text.drop_first().len() && byte_offset(text.drop_first(), k) == b
                    - char_width(text[0]);
            lemma_byte_offset_shift(text, k + 1);
        }
    }
}

/// The index of the character at a character boundary starts there.
pub proof fn lemma_char_index_at_byte(text: Seq<char>, b: int)
    requires
        is_char_boundary(utf8_bytes(text), b),
    ensures
        0 <= char_index_at_byte(text, b) <= text.len(),
        byte_offset(text, char_index_at_byte(text, b)) == b,
{
    lemma_boundary_is_byte_offset(text, b);
}

/// The bytes between the starts of two characters spell the characters
/// between them.
pub proof fn lemma_byte_range_text(text: Seq<char>, i: int, j: int)
    requires
        0 <= i <= j <= text.len(),
    ensures
        is_byte_range(text, byte_offset(text, i), byte_offset(text, j)),
        byte_range_text(text, byte_offset(text, i), byte_offset(text, j)) == text.subrange(i, j),
{
    lemma_byte_offset_bounds(text, i, j);
    lemma_byte_offset_bounds(text, j, text.len() as int);
    lemma_byte_offset_is_boundary(text, i);
    lemma_byte_offset_is_boundary(text, j);
    let a = text.take(i);
    let m = text.subrange(i, j);
    let z = text.skip(j);
    assert(text =~= a + m + z);
    assert(text.take(j) =~= a + m);
    lemma_encode_concat(a, m);
    lemma_encode_concat(a + m, z);
    let bytes = utf8_bytes(text);
    assert(bytes.subrange(byte_offset(text, i), byte_offset(text, j)) =~= encode_utf8(m));
}


/// The characters of `text`, in order.
pub fn chars_of(text: &str) -> (r: Vec<char>)
    ensures
        r@ == text@,
{
    broadcast use vstd::string::axiom_spec_iter, vstd::string::next_postcondition;
    let mut it = text.chars();
    let mut out: Vec<char> = Vec::new();
    loop
        invariant
            out@ + vstd::std_specs::iter::IteratorSpec::remaining(&it) == text@,
            vstd::std_specs::iter::IteratorSpec::decrease(&it) is Some,
        decreases vstd::std_specs::iter::IteratorSpec::decrease(&it)->0,
    {
        match it.next() {
            Some(c) => {
                out.push(c);
                assert(out@ + vstd::std_specs::iter::IteratorSpec::remaining(&it) =~= text@);
            },
            None => {
                assert(out@ =~= text@);
                return out;
            },
        }
    }
}

/// The number of UTF-8 bytes that encode `c`.
pub fn utf8_width(c: char) -> (w: usize)
    ensures
        w == char_width(c),
{
    proof {
        vstd::utf8::char_is_scalar(c);
    }
    let u = c as u32;
    if u < 0x80 {
        1
    } else if u < 0x800 {
        2
    } else if u < 0x10000 {
        3
    } else {
        4
    }
}


/// The byte offset of each character of `text`, and of its end.
pub fn char_offsets(text: &str, chars: &Vec<char>) -> (offs: Vec<usize>)
    requires
        chars@ == text@,
    ensures
        offs@.len() == text@.len() + 1,
        forall|m: int| 0 <= m <= text@.len() ==> #[trigger] offs@[m] == byte_offset(text@, m),
{
    let n = chars.len();
    let total = byte_len(text);
    proof {
        lemma_byte_offset_bounds(text@, 0, n as int);
    }
    let mut offs: Vec<usize> = Vec::new();
    offs.push(0);
    let mut j: usize = 0;
    while j < n
        invariant
            0 <= j <= n,
            n == text@.len(),
            chars@ == text@,
            total == utf8_bytes(text@).len(),
            offs@.len() == j + 1,
            forall|m: int| 0 <= m <= j ==> #[trigger] offs@[m] == byte_offset(text@, m),
        decreases n - j,
    {
        proof {
            lemma_byte_offset_step(text@, j as int);
            lemma_byte_offset_bounds(text@, j + 1, n as int);
        }
        let next = offs[j] + utf8_width(chars[j]);
        offs.push(next);
        j = j + 1;
    }
    offs
}

/// The index of the first line feed at or after index `s`, or the length of
/// `text` where there is none.
pub open spec fn next_line_feed(text: Seq<char>, s: int) -> int
    decreases text.len() - s,
{
    if s >= text.len() {
        text.len() as int
    } else if text[s] == '\n' {
        s
    } else {
        next_line_feed(text, s + 1)
    }
}

/// The character range of the line `n` lines after the line that starts at
/// index `s`, up to (not including) its line feed. A text that ends with a
/// line feed has no empty line after it.
pub open spec fn line_span_from(text: Seq<char>, n: nat, s: int) -> Option<(int, int)>
    decreases text.len() - s,
{
    if s < 0 || s > text.len() {
        None
    } else {
        let e = next_line_feed(text, s);
        if n == 0 {
            if e < text.len() || s < e {
                Some((s, e))
            } else {
                None
            }
        } else if e < text.len() {
            proof {
                lemma_next_line_feed_bounds(text, s);
            }
            line_span_from(text, (n - 1) as nat, e + 1)
        } else {
            None
        }
    }
}

/// The line with index `n` of `text`, as `str::lines` gives it: without its
/// line feed, and without the carriage return before that line feed.
pub open spec fn line_of(text: Seq<char>, n: nat) -> Option<Seq<char>> {
    match line_span_from(text, n, 0) {
        Some((s, e)) => Some(
            if e < text.len() && s < e && text[e - 1] == '\r' {
                text.subrange(s, e - 1)
            } else {
                text.subrange(s, e)
            },
        ),
        None => None,
    }
}

pub proof fn lemma_next_line_feed_bounds(text: Seq<char>, s: int)
    requires
        0 <= s <= text.len(),
    ensures
        s <= next_line_feed(text, s) <= text.len(),
        next_line_feed(text, s) < text.len() ==> text[next_line_feed(text, s)] == '\n',
    decreases text.len() - s,
{
    if s < text.len() {
        lemma_next_line_feed_bounds(text, s + 1);
    }
}

/// The line with index `n` of `text`, where it has one.
pub fn nth_line(text: &str, n: usize) -> (r: Option<String>)
    ensures
        match r {
            Some(l) => line_of(text@, n as nat) == Some(l@),
            None => line_of(text@, n as nat) is None,
        },
{
    let chars = chars_of(text);
    let len = chars.len();
    let mut s: usize = 0;
    let mut left: usize = n;
    loop
        invariant
            0 <= s <= len,
            len == text@.len(),
            chars@ == text@,
            line_span_from(text@, n as nat, 0) == line_span_from(text@, left as nat, s as int),
        decreases len - s,
    {
        let mut e: usize = s;
        while e < len && chars[e] != '\n'
            invariant
                s <= e <= len,
                len == text@.len(),
                chars@ == text@,
                next_line_feed(text@, s as int) == next_line_feed(text@, e as int),
            decreases len - e,
        {
            e = e + 1;
        }
        proof {
            lemma_next_line_feed_bounds(text@, s as int);
        }
        assert(next_line_feed(text@, s as int) == e);
        if left == 0 {
            if e < len || s < e {
                let end = if e < len && s < e && chars[e - 1] == '\r' { e - 1 } else { e };
                let offs = char_offsets(text, &chars);
                proof {
                    lemma_byte_range_text(text@, s as int, end as int);
                }
                let line = byte_slice(text, offs[s], offs[end]);
                return Some(line);
            }
            return None;
        }
        if e >= len {
            return None;
        }
        s = e + 1;
        left = left - 1;
    }
}

} // verus!
