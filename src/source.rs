use vstd::prelude::*;
use vstd::string::StringSliceAdditionalSpecFns;
use vstd::utf8::{is_continuation_byte, is_leading_byte_width_4};

verus! {

/// Number of UTF-16 code units that the byte `b` of a UTF-8 text accounts
/// for: a character of four bytes takes two units (a surrogate pair), any
/// other character one, and it is counted at its first byte.
pub open spec fn utf16_weight(b: u8) -> nat {
    if is_continuation_byte(b) {
        0
    } else if is_leading_byte_width_4(b) {
        2
    } else {
        1
    }
}

/// UTF-16 length of the bytes `bytes[start..end]`.
pub open spec fn utf16_units(bytes: Seq<u8>, start: int, end: int) -> nat
    decreases end - start,
{
    if end <= start {
        0
    } else {
        utf16_units(bytes, start, end - 1) + utf16_weight(bytes[end - 1])
    }
}

/// Lengths of adjacent ranges add up.
pub proof fn lemma_utf16_units_split(bytes: Seq<u8>, start: int, mid: int, end: int)
    requires
        start <= mid <= end,
    ensures
        utf16_units(bytes, start, end) == utf16_units(bytes, start, mid) + utf16_units(
            bytes,
            mid,
            end,
        ),
    decreases end - mid,
{
    if end > mid {
        lemma_utf16_units_split(bytes, start, mid, end - 1);
    }
}

/// A range never counts more units than a range that contains it.
pub proof fn lemma_utf16_units_mono(bytes: Seq<u8>, start: int, end: int, len: int)
    requires
        0 <= start <= end <= len,
    ensures
        utf16_units(bytes, start, end) <= utf16_units(bytes, 0, len),
{
    lemma_utf16_units_split(bytes, 0, start, end);
    lemma_utf16_units_split(bytes, 0, end, len);
}

/// The text of a message, kept as its UTF-8 bytes, with the position
/// arithmetic that turns byte offsets into UTF-16 offsets.
pub struct SourceText {
    bytes: Vec<u8>,
}

impl SourceText {
    pub closed spec fn bytes(&self) -> Seq<u8> {
        self.bytes@
    }

    /// Both the byte length and the UTF-16 length of the text fit in a `u32`.
    pub closed spec fn wf(&self) -> bool {
        &&& self.bytes@.len() <= u32::MAX
        &&& utf16_units(self.bytes@, 0, self.bytes@.len() as int) <= u32::MAX
    }

    /// What well-formedness gives: both lengths of the text fit in a `u32`.
    pub proof fn lemma_fits(&self)
        requires
            self.wf(),
        ensures
            self.bytes().len() <= u32::MAX,
            utf16_units(self.bytes(), 0, self.bytes().len() as int) <= u32::MAX,
    {
    }

    /// Takes the UTF-8 bytes of `text`; `None` where its length does not fit
    /// in a `u32`.
    pub fn new(text: &str) -> (r: Option<SourceText>)
        ensures
            r is Some <==> text.spec_bytes().len() <= u32::MAX && utf16_units(
                text.spec_bytes(),
                0,
                text.spec_bytes().len() as int,
            ) <= u32::MAX,
            r matches Some(st) ==> st.wf() && st.bytes() == text.spec_bytes(),
            r matches Some(st) ==> utf16_units(st.bytes(), 0, st.bytes().len() as int)
                == chars_utf16_len(text@),
    {
        proof {
            lemma_utf16_units_of_encoding(text@);
        }
        let b: &[u8] = text.as_bytes();
        let n: usize = b.len();
        if n > u32::MAX as usize {
            return None;
        }
        let mut total: u64 = 0;
        let mut i: usize = 0;
        while i < n
            invariant
                i <= n,
                n == b@.len(),
                n <= u32::MAX,
                total == utf16_units(b@, 0, i as int),
                total <= 2 * i,
            decreases n - i,
        {
            total = total + weight_of(b[i]);
            i = i + 1;
        }
        if total > u32::MAX as u64 {
            return None;
        }
        let mut v: Vec<u8> = Vec::new();
        let mut j: usize = 0;
        while j < n
            invariant
                j <= n,
                n == b@.len(),
                v@ == b@.subrange(0, j as int),
            decreases n - j,
        {
            v.push(b[j]);
            j = j + 1;
        }
        assert(v@ == b@);
        Some(SourceText { bytes: v })
    }

    /// Length of the text in bytes.
    pub fn len(&self) -> (r: u32)
        requires
            self.wf(),
        ensures
            r == self.bytes().len(),
    {
        self.bytes.len() as u32
    }

    /// Length of the whole text in UTF-16 code units.
    pub fn utf16_total(&self) -> (r: u32)
        requires
            self.wf(),
        ensures
            r == utf16_units(self.bytes(), 0, self.bytes().len() as int),
    {
        self.utf16_len(0, self.bytes.len() as u32)
    }

    /// UTF-16 length of the bytes `start..end`.
    pub fn utf16_len(&self, start: u32, end: u32) -> (r: u32)
        requires
            self.wf(),
            start <= end <= self.bytes().len(),
        ensures
            r == utf16_units(self.bytes(), start as int, end as int),
    {
        proof {
            lemma_utf16_units_mono(self.bytes@, start as int, end as int, self.bytes@.len() as int);
        }
        let mut total: u32 = 0;
        let mut i: u32 = start;
        while i < end
            invariant
                start <= i <= end,
                end <= self.bytes@.len(),
                self.wf(),
                total == utf16_units(self.bytes@, start as int, i as int),
                utf16_units(self.bytes@, start as int, end as int) <= u32::MAX,
            decreases end - i,
        {
            proof {
                lemma_utf16_units_split(self.bytes@, start as int, i as int + 1, end as int);
            }
            total = total + weight_of(self.bytes[i as usize]) as u32;
            i = i + 1;
        }
        total
    }

    /// The byte at `i`.
    pub fn byte_at(&self, i: u32) -> (r: u8)
        requires
            i < self.bytes().len(),
        ensures
            r == self.bytes()[i as int],
    {
        self.bytes[i as usize]
    }
}

fn weight_of(b: u8) -> (r: u64)
    ensures
        r == utf16_weight(b),
        r <= 2,
{
    if 0x80 <= b && b <= 0xBF {
        0
    } else if 0xF0 <= b && b <= 0xF7 {
        2
    } else {
        1
    }
}

/// UTF-16 length of a character: two code units for a character outside the
/// basic multilingual plane, one for any other.
pub open spec fn char_utf16_len(c: char) -> nat {
    if c as u32 >= 0x10000 {
        2
    } else {
        1
    }
}

/// UTF-16 length of a sequence of characters, the sum of theirs.
pub open spec fn chars_utf16_len(chars: Seq<char>) -> nat
    decreases chars.len(),
{
    if chars.len() == 0 {
        0
    } else {
        char_utf16_len(chars[0]) + chars_utf16_len(chars.drop_first())
    }
}

proof fn lemma_utf16_units_prefix(a: Seq<u8>, b: Seq<u8>, n: int)
    requires
        0 <= n <= a.len(),
        n <= b.len(),
        a.take(n) == b.take(n),
    ensures
        utf16_units(a, 0, n) == utf16_units(b, 0, n),
    decreases n,
{
    if n > 0 {
        assert(a[n - 1] == a.take(n)[n - 1]);
        assert(b[n - 1] == b.take(n)[n - 1]);
        assert(a.take(n - 1) == a.take(n).take(n - 1));
        assert(b.take(n - 1) == b.take(n).take(n - 1));
        lemma_utf16_units_prefix(a, b, n - 1);
    }
}

proof fn lemma_utf16_units_concat(a: Seq<u8>, b: Seq<u8>, m: int)
    requires
        0 <= m <= b.len(),
    ensures
        utf16_units(a + b, 0, a.len() + m) == utf16_units(a, 0, a.len() as int) + utf16_units(
            b,
            0,
            m,
        ),
    decreases m,
{
    if m == 0 {
        assert((a + b).take(a.len() as int) == a.take(a.len() as int));
        lemma_utf16_units_prefix(a + b, a, a.len() as int);
    } else {
        lemma_utf16_units_concat(a, b, m - 1);
        assert((a + b)[a.len() + m - 1] == b[m - 1]);
    }
}

proof fn lemma_utf16_units_scalar(c: char)
    ensures
        utf16_units(
            vstd::utf8::encode_scalar(c as u32),
            0,
            vstd::utf8::encode_scalar(c as u32).len() as int,
        ) == char_utf16_len(c),
{
    let v = c as u32;
    let e = vstd::utf8::encode_scalar(v);
    assert(vstd::utf8::is_scalar(v)) by {
        vstd::utf8::char_is_scalar(c);
    }
    assert(0x80 <= (0x80u8 | ((v & 0x3F) as u8)) <= 0xBF) by (bit_vector);
    assert(0x80 <= (0x80u8 | (((v >> 6) & 0x3F) as u8)) <= 0xBF) by (bit_vector);
    assert(0x80 <= (0x80u8 | (((v >> 12) & 0x3F) as u8)) <= 0xBF) by (bit_vector);
    assert(((v & 0x7F) as u8) <= 0x7F) by (bit_vector);
    assert(0xC0 <= (0xC0u8 | (((v >> 6) & 0x1F) as u8)) <= 0xDF) by (bit_vector);
    assert(0xE0 <= (0xE0u8 | (((v >> 12) & 0x0F) as u8)) <= 0xEF) by (bit_vector);
    assert(0xF0 <= (0xF0u8 | (((v >> 18) & 0x7) as u8)) <= 0xF7) by (bit_vector);
    if vstd::utf8::has_width_1_encoding(v) {
        assert(e.len() == 1 && !is_continuation_byte(e[0]) && !is_leading_byte_width_4(e[0]));
    } else if vstd::utf8::has_width_2_encoding(v) {
        assert(e.len() == 2 && !is_continuation_byte(e[0]) && !is_leading_byte_width_4(e[0]));
        assert(is_continuation_byte(e[1]));
    } else if vstd::utf8::has_width_3_encoding(v) {
        assert(e.len() == 3 && !is_continuation_byte(e[0]) && !is_leading_byte_width_4(e[0]));
        assert(is_continuation_byte(e[1]) && is_continuation_byte(e[2]));
    } else {
        assert(e.len() == 4 && is_leading_byte_width_4(e[0]));
        assert(is_continuation_byte(e[1]) && is_continuation_byte(e[2]) && is_continuation_byte(e[3]));
    }
    assert(utf16_units(e, 0, 0) == 0);
    assert(utf16_units(e, 0, 1) == utf16_weight(e[0]));
    if e.len() >= 2 {
        assert(utf16_units(e, 0, 2) == utf16_units(e, 0, 1) + utf16_weight(e[1]));
    }
    if e.len() >= 3 {
        assert(utf16_units(e, 0, 3) == utf16_units(e, 0, 2) + utf16_weight(e[2]));
    }
    if e.len() >= 4 {
        assert(utf16_units(e, 0, 4) == utf16_units(e, 0, 3) + utf16_weight(e[3]));
    }
}

/// Counting at the bytes agrees with counting at the characters: the UTF-16
/// length of the UTF-8 encoding of `chars` is the sum of their UTF-16
/// lengths, for ASCII and multi-byte characters alike.
pub proof fn lemma_utf16_units_of_encoding(chars: Seq<char>)
    ensures
        utf16_units(
            vstd::utf8::encode_utf8(chars),
            0,
            vstd::utf8::encode_utf8(chars).len() as int,
        ) == chars_utf16_len(chars),
    decreases chars.len(),
{
    if chars.len() > 0 {
        let head = vstd::utf8::encode_scalar(chars[0] as u32);
        let rest = vstd::utf8::encode_utf8(chars.drop_first());
        lemma_utf16_units_of_encoding(chars.drop_first());
        lemma_utf16_units_scalar(chars[0]);
        lemma_utf16_units_concat(head, rest, rest.len() as int);
    }
}

/// On ASCII bytes the UTF-16 length of a range is its byte length.
pub proof fn lemma_utf16_units_ascii(bytes: Seq<u8>, start: int, end: int)
    requires
        start <= end,
        forall|k: int| start <= k < end ==> bytes[k] < 0x80,
    ensures
        utf16_units(bytes, start, end) == end - start,
    decreases end - start,
{
    if end > start {
        lemma_utf16_units_ascii(bytes, start, end - 1);
    }
}

} // verus!
