//! Character columns and byte offsets in UTF-8 text.

use vstd::prelude::*;
use vstd::utf8::*;

verus! {

/// The byte offset at which the character with index `c` begins in the
/// encoding of `chars`. The index `chars.len()` is accepted and gives the end
/// of the text; a larger one gives nothing.
pub open spec fn byte_offset(chars: Seq<char>, c: int) -> Option<int> {
    if 0 <= c <= chars.len() {
        Some(encode_utf8(chars.subrange(0, c)).len() as int)
    } else {
        None
    }
}

/// Encoding a concatenation gives the concatenation of the encodings.
pub proof fn lemma_encode_concat(a: Seq<char>, b: Seq<char>)
    ensures
        encode_utf8(a + b) == encode_utf8(a) + encode_utf8(b),
    decreases a.len(),
{
    if a.len() == 0 {
        assert(a + b =~= b);
        assert(encode_utf8(a) + encode_utf8(b) =~= encode_utf8(b));
    } else {
        lemma_encode_concat(a.drop_first(), b);
        assert((a + b).drop_first() =~= a.drop_first() + b);
        assert(encode_utf8(a + b) =~= encode_utf8(a) + encode_utf8(b));
    }
}

/// A text of one character is encoded as that character is.
pub proof fn lemma_encode_one(c: char)
    ensures
        encode_utf8(seq![c]) == encode_scalar(c as u32),
{
    let one = seq![c];
    assert(one.drop_first() =~= Seq::<char>::empty());
    assert(encode_utf8(one.drop_first()) =~= Seq::<u8>::empty());
    assert(encode_utf8(one) =~= encode_scalar(one[0] as u32) + encode_utf8(one.drop_first()));
}

/// Every character takes at least one byte, so only the empty text has an
/// empty encoding.
pub proof fn lemma_encode_len(chars: Seq<char>)
    ensures
        encode_utf8(chars).len() >= chars.len(),
    decreases chars.len(),
{
    if chars.len() > 0 {
        lemma_encode_len(chars.drop_first());
    }
}

/// Splitting `chars` at `k` splits its encoding at the byte offset of `k`.
pub proof fn lemma_encode_split(chars: Seq<char>, k: int)
    requires
        0 <= k <= chars.len(),
    ensures
        encode_utf8(chars) == encode_utf8(chars.subrange(0, k)) + encode_utf8(
            chars.subrange(k, chars.len() as int),
        ),
{
    assert(chars =~= chars.subrange(0, k) + chars.subrange(k, chars.len() as int));
    lemma_encode_concat(chars.subrange(0, k), chars.subrange(k, chars.len() as int));
}

/// In valid UTF-8, an offset before which the bytes are valid UTF-8 by
/// themselves is a character boundary.
pub proof fn lemma_valid_prefix_is_boundary(bytes: Seq<u8>, i: int)
    requires
        valid_utf8(bytes),
        0 <= i <= bytes.len(),
        valid_utf8(bytes.subrange(0, i)),
    ensures
        is_char_boundary(bytes, i),
    decreases bytes.len(),
{
    if i != 0 {
        let prefix = bytes.subrange(0, i);
        let width = length_of_first_scalar(bytes);
        assert(prefix[0] == bytes[0]);
        assert(length_of_first_scalar(prefix) == width);
        assert(width <= i);
        assert(pop_first_scalar(prefix) =~= pop_first_scalar(bytes).subrange(0, i - width));
        lemma_valid_prefix_is_boundary(pop_first_scalar(bytes), i - width);
    }
}

/// The bytes between two character boundaries are valid UTF-8.
pub proof fn lemma_between_boundaries(bytes: Seq<u8>, from: int, to: int)
    requires
        valid_utf8(bytes),
        0 <= from <= to <= bytes.len(),
        is_char_boundary(bytes, from),
        is_char_boundary(bytes, to),
    ensures
        valid_utf8(bytes.subrange(from, to)),
        is_char_boundary(bytes.subrange(0, to), from),
        is_char_boundary(bytes.subrange(from, bytes.len() as int), to - from),
{
    let head = bytes.subrange(0, to);
    let tail = bytes.subrange(from, bytes.len() as int);
    valid_utf8_split(bytes, to);
    valid_utf8_split(bytes, from);
    assert(head.subrange(0, from) =~= bytes.subrange(0, from));
    lemma_valid_prefix_is_boundary(head, from);
    valid_utf8_split(head, from);
    assert(head.subrange(from, head.len() as int) =~= bytes.subrange(from, to));
    assert(tail.subrange(0, to - from) =~= bytes.subrange(from, to));
    lemma_valid_prefix_is_boundary(tail, to - from);
}

/// Where a stretch of `bytes` that begins on a character boundary holds the
/// encoding of `chars`, every character of `chars` begins on a character
/// boundary of `bytes`, and so does the end of the stretch.
pub proof fn lemma_offset_is_boundary(bytes: Seq<u8>, start: int, chars: Seq<char>, c: int)
    requires
        valid_utf8(bytes),
        0 <= start,
        is_char_boundary(bytes, start),
        start + encode_utf8(chars).len() <= bytes.len(),
        bytes.subrange(start, start + encode_utf8(chars).len()) == encode_utf8(chars),
        0 <= c <= chars.len(),
    ensures
        encode_utf8(chars.subrange(0, c)).len() <= encode_utf8(chars).len(),
        is_char_boundary(bytes, start + encode_utf8(chars.subrange(0, c)).len()),
{
    let before = encode_utf8(chars.subrange(0, c));
    lemma_encode_split(chars, c);
    valid_utf8_split(bytes, start);
    encode_utf8_valid_utf8(chars.subrange(0, c));
    valid_utf8_concat(bytes.subrange(0, start), before);
    let whole = encode_utf8(chars);
    let stretch = bytes.subrange(start, start + whole.len());
    assert forall|j: int| 0 <= j < before.len() implies bytes[start + j] == before[j] by {
        assert(stretch[j] == bytes[start + j]);
        assert(whole[j] == before[j]);
    }
    assert(bytes.subrange(0, start + before.len()) =~= bytes.subrange(0, start) + before);
    lemma_valid_prefix_is_boundary(bytes, start + before.len());
}

/// In valid UTF-8 the offset after a newline byte is a character boundary.
pub proof fn lemma_after_newline_is_boundary(bytes: Seq<u8>, i: int)
    requires
        valid_utf8(bytes),
        0 <= i < bytes.len(),
        bytes[i] == 0x0Au8,
    ensures
        is_char_boundary(bytes, i + 1),
{
    is_char_boundary_iff_not_is_continuation_byte(bytes, i);
    valid_utf8_split(bytes, i);
    let rest = bytes.subrange(i, bytes.len() as int);
    assert(rest[0] == bytes[i]);
    assert(length_of_first_scalar(rest) == 1);
    partial_valid_utf8_extend(bytes, i);
    lemma_valid_prefix_is_boundary(bytes, i + 1);
}

/// Decoding two stretches of valid UTF-8 one after the other gives what
/// decoding them as one gives.
pub proof fn lemma_decode_concat(a: Seq<u8>, b: Seq<u8>)
    requires
        valid_utf8(a),
        valid_utf8(b),
    ensures
        valid_utf8(a + b),
        decode_utf8(a + b) == decode_utf8(a) + decode_utf8(b),
{
    let whole = a + b;
    valid_utf8_concat(a, b);
    assert(whole.subrange(0, a.len() as int) =~= a);
    assert(whole.subrange(a.len() as int, whole.len() as int) =~= b);
    lemma_valid_prefix_is_boundary(whole, a.len() as int);
    decode_utf8_split(whole, a.len() as int);
}

/// The byte offset of a character column of `s`, if `s` has that column.
pub fn byte_in_str(s: &str, c: u64) -> (r: Option<usize>)
    ensures
        match r {
            Some(b) => byte_offset(s@, c as int) == Some(b as int),
            None => byte_offset(s@, c as int) is None,
        },
{
    let bytes = s.as_bytes();
    let n = bytes.len();
    let mut i: usize = 0;
    let mut k: u64 = 0;
    while k < c && i < n
        invariant
            bytes@ == encode_utf8(s@),
            n == bytes@.len(),
            k <= c,
            k <= s@.len(),
            i <= n,
            i == encode_utf8(s@.subrange(0, k as int)).len(),
        decreases n - i,
    {
        let b = bytes[i];
        let width: usize = if b <= 0x7f {
            1
        } else if b <= 0xdf {
            2
        } else if b <= 0xef {
            3
        } else {
            4
        };
        proof {
            let done = s@.subrange(0, k as int);
            let rest = s@.subrange(k as int, s@.len() as int);
            lemma_encode_split(s@, k as int);
            assert(encode_utf8(rest).len() > 0);
            assert(rest.len() > 0);
            encode_utf8_first_scalar(rest);
            assert(encode_utf8(rest)[0] == bytes@[i as int]);
            assert(width == encode_scalar(rest[0] as u32).len());
            assert(s@.subrange(0, k + 1) =~= done + seq![rest[0]]);
            lemma_encode_concat(done, seq![rest[0]]);
            lemma_encode_one(rest[0]);
        }
        i = i + width;
        k = k + 1;
    }
    if k == c {
        Some(i)
    } else {
        proof {
            lemma_encode_split(s@, k as int);
            lemma_encode_len(s@.subrange(k as int, s@.len() as int));
        }
        None
    }
}

/// Whether two strings hold the same characters.
pub fn same_text(a: &str, b: &str) -> (r: bool)
    ensures
        r == (a@ == b@),
{
    let x = a.as_bytes();
    let y = b.as_bytes();
    proof {
        encode_utf8_decode_utf8(a@);
        encode_utf8_decode_utf8(b@);
    }
    if x.len() != y.len() {
        return false;
    }
    let mut i: usize = 0;
    while i < x.len()
        invariant
            x@ == encode_utf8(a@),
            y@ == encode_utf8(b@),
            i <= x@.len(),
            x@.len() == y@.len(),
            forall|j: int| 0 <= j < i ==> x@[j] == y@[j],
        decreases x@.len() - i,
    {
        if x[i] != y[i] {
            return false;
        }
        i = i + 1;
    }
    assert(x@ =~= y@);
    true
}

} // verus!
