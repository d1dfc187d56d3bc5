use vstd::prelude::*;
use vstd::slice::slice_to_vec;
use vstd::utf8::{encode_scalar, encode_utf8, is_scalar};
use crate::error::Error;

verus! {

/// The bytes that stand for a text at the boundary: its UTF-8 encoding, with
/// no terminator added.
pub open spec fn text_bytes(text: Seq<char>) -> Seq<u8> {
    encode_utf8(text)
}

/// No byte of the sequence is zero.
pub open spec fn nul_free(bytes: Seq<u8>) -> bool {
    forall|i: int| 0 <= i < bytes.len() ==> bytes[i] != 0u8
}

/// A text can cross the boundary when its bytes hold no zero byte.
pub open spec fn is_encodable(text: Seq<char>) -> bool {
    nul_free(text_bytes(text))
}

/// Every text of the sequence can cross the boundary.
pub open spec fn all_encodable(texts: Seq<Seq<char>>) -> bool {
    forall|i: int| 0 <= i < texts.len() ==> is_encodable(#[trigger] texts[i])
}

/// The number of leading texts of the sequence that can cross the boundary:
/// the position of the first one that cannot, or the length if there is none.
pub open spec fn encodable_prefix_len(texts: Seq<Seq<char>>) -> nat
    decreases texts.len(),
{
    if texts.len() == 0 || !is_encodable(texts[0]) {
        0
    } else {
        1 + encodable_prefix_len(texts.drop_first())
    }
}

/// `n` is the length of the longest encodable prefix as soon as the first `n`
/// texts are encodable and the one after them, if any, is not.
pub proof fn lemma_encodable_prefix_len(texts: Seq<Seq<char>>, n: int)
    requires
        0 <= n <= texts.len(),
        forall|j: int| 0 <= j < n ==> is_encodable(#[trigger] texts[j]),
        n < texts.len() ==> !is_encodable(texts[n]),
    ensures
        encodable_prefix_len(texts) == n,
    decreases n,
{
    if n > 0 {
        let rest = texts.drop_first();
        assert forall|j: int| 0 <= j < n - 1 implies is_encodable(#[trigger] rest[j]) by {
            assert(rest[j] == texts[j + 1]);
        }
        lemma_encodable_prefix_len(rest, n - 1);
    }
}

/// No character of the text is the zero character.
pub open spec fn has_no_nul_char(text: Seq<char>) -> bool {
    forall|i: int| 0 <= i < text.len() ==> text[i] != '\0'
}

/// The zero character is the one whose number is zero.
proof fn lemma_nul_char(c: char)
    ensures
        c == '\0' <==> c as u32 == 0,
{
    if c as u32 == 0 {
        vstd::utf8::char_u32_cast(c, 0u32);
        vstd::utf8::char_u32_cast('\0', 0u32);
    }
}

/// Two sequences joined hold no zero byte exactly when neither holds one.
proof fn lemma_nul_free_concat(front: Seq<u8>, back: Seq<u8>)
    ensures
        nul_free(front + back) <==> nul_free(front) && nul_free(back),
{
    let joined = front + back;
    if nul_free(joined) {
        assert forall|i: int| 0 <= i < front.len() implies front[i] != 0u8 by {
            assert(joined[i] == front[i]);
        }
        assert forall|i: int| 0 <= i < back.len() implies back[i] != 0u8 by {
            assert(joined[front.len() + i] == back[i]);
        }
    }
}

/// The bytes of one character hold a zero byte exactly when the character is
/// the zero character: every byte of a longer encoding has its top bit set.
proof fn lemma_scalar_nul_free(scalar: u32)
    requires
        is_scalar(scalar),
    ensures
        nul_free(encode_scalar(scalar)) <==> scalar != 0,
{
    assert(scalar <= 0x7F ==> (((scalar & 0x7F) as u8) == 0u8 <==> scalar == 0)) by (bit_vector);
    assert((0xC0u8 | ((scalar >> 6) & 0x1F) as u8) != 0u8) by (bit_vector);
    assert((0xE0u8 | ((scalar >> 12) & 0x0F) as u8) != 0u8) by (bit_vector);
    assert((0xF0u8 | ((scalar >> 18) & 0x7) as u8) != 0u8) by (bit_vector);
    assert((0x80u8 | (scalar & 0x3F) as u8) != 0u8) by (bit_vector);
    assert((0x80u8 | ((scalar >> 6) & 0x3F) as u8) != 0u8) by (bit_vector);
    assert((0x80u8 | ((scalar >> 12) & 0x3F) as u8) != 0u8) by (bit_vector);
    let bytes = encode_scalar(scalar);
    if scalar == 0 {
        assert(bytes[0] == 0u8);
    }
}

/// A text can cross the boundary exactly when none of its characters is the
/// zero character: in its bytes a zero stands for that character and for
/// nothing else.
pub proof fn law_encodable_iff_no_nul_char(text: Seq<char>)
    ensures
        is_encodable(text) <==> has_no_nul_char(text),
    decreases text.len(),
{
    if text.len() > 0 {
        let rest = text.drop_first();
        law_encodable_iff_no_nul_char(rest);
        vstd::utf8::char_is_scalar(text[0]);
        lemma_scalar_nul_free(text[0] as u32);
        lemma_nul_free_concat(encode_scalar(text[0] as u32), encode_utf8(rest));
        lemma_nul_char(text[0]);
        if has_no_nul_char(text) {
            assert forall|i: int| 0 <= i < rest.len() implies rest[i] != '\0' by {
                assert(rest[i] == text[i + 1]);
            }
        }
        if has_no_nul_char(rest) && text[0] != '\0' {
            assert forall|i: int| 0 <= i < text.len() implies text[i] != '\0' by {
                if i > 0 {
                    assert(rest[i - 1] == text[i]);
                }
            }
        }
    }
}

/// Tells whether a zero byte occurs among the bytes.
pub fn has_nul(bytes: &[u8]) -> (found: bool)
    ensures
        found == !nul_free(bytes@),
{
    let mut i: usize = 0;
    while i < bytes.len()
        invariant
            0 <= i <= bytes.len(),
            forall|j: int| 0 <= j < i ==> bytes@[j] != 0u8,
        decreases bytes.len() - i,
    {
        if bytes[i] == 0 {
            return true;
        }
        i += 1;
    }
    false
}

/// Tells whether two texts are the same, by their bytes: two texts with the
/// same bytes are the same text.
pub fn same_text(left: &str, right: &str) -> (same: bool)
    ensures
        same == (left@ == right@),
{
    let a = left.as_bytes();
    let b = right.as_bytes();
    proof {
        vstd::utf8::encode_utf8_decode_utf8(left@);
        vstd::utf8::encode_utf8_decode_utf8(right@);
    }
    if a.len() != b.len() {
        return false;
    }
    let mut i: usize = 0;
    while i < a.len()
        invariant
            0 <= i <= a.len(),
            a@.len() == b@.len(),
            forall|j: int| 0 <= j < i ==> a@[j] == b@[j],
            a@ == b@ ==> left@ == right@,
            left@ == right@ ==> a@ == b@,
        decreases a.len() - i,
    {
        if a[i] != b[i] {
            return false;
        }
        i += 1;
    }
    assert(a@ =~= b@);
    true
}

/// Encodes a text for the boundary. A text with a zero byte is refused, never
/// cut short.
pub fn encode(text: &str) -> (res: Result<Vec<u8>, Error>)
    ensures
        res is Ok <==> is_encodable(text@),
        res matches Ok(bytes) ==> bytes@ == text_bytes(text@),
        res matches Err(e) ==> e == Error::NulByte,
{
    let bytes = text.as_bytes();
    if has_nul(bytes) {
        Err(Error::NulByte)
    } else {
        Ok(slice_to_vec(bytes))
    }
}

} // verus!
