//! What holds of the content hash.

use crate::hash;
use crate::numerals;
use crate::text;
use vstd::prelude::*;
use vstd::utf8::*;

verus! {

/// Two hashes that differ stay different when the same byte follows.
proof fn lemma_step_injective(g: nat, h: nat, byte: u8)
    requires
        g < 0x1_0000_0000_0000_0000,
        h < 0x1_0000_0000_0000_0000,
        (g * 33 + byte) % 0x1_0000_0000_0000_0000 == (h * 33 + byte) % 0x1_0000_0000_0000_0000,
    ensures
        g == h,
{
    let m: int = 0x1_0000_0000_0000_0000;
    let d = g - h;
    let k = (g * 33 + byte) / m - (h * 33 + byte) / m;
    assert(33 * d == k * m);
    // The inverse of 33 modulo `m`.
    let inverse: int = 1117984489315730401;
    assert(inverse * 33 == 1 + 2 * m);
    let q = inverse * k - 2 * d;
    assert(d == m * q) by (nonlinear_arith)
        requires
            33 * d == k * m,
            inverse * 33 == 1 + 2 * m,
            q == inverse * k - 2 * d,
    ;
    assert(d == 0) by (nonlinear_arith)
        requires
            d == m * q,
            -m < d < m,
            m > 0,
    ;
}

/// The hash fits in sixty-four bits.
proof fn lemma_djb2_bound(bytes: Seq<u8>)
    ensures
        hash::djb2(bytes) < 0x1_0000_0000_0000_0000,
{
}

/// Byte strings that differ in exactly one byte have different hashes.
pub proof fn law_byte_edit_changes_djb2(bytes: Seq<u8>, index: int, byte: u8)
    requires
        0 <= index < bytes.len(),
        byte != bytes[index],
    ensures
        hash::djb2(bytes) != hash::djb2(bytes.update(index, byte)),
    decreases bytes.len(),
{
    let edited = bytes.update(index, byte);
    let g = hash::djb2(bytes.drop_last());
    let h = hash::djb2(edited.drop_last());
    lemma_djb2_bound(bytes.drop_last());
    lemma_djb2_bound(edited.drop_last());
    if index == bytes.len() - 1 {
        assert(edited.drop_last() =~= bytes.drop_last());
    } else {
        assert(edited.drop_last() =~= bytes.drop_last().update(index, byte));
        law_byte_edit_changes_djb2(bytes.drop_last(), index, byte);
        if hash::djb2(bytes) == hash::djb2(edited) {
            lemma_step_injective(g, h, bytes.last());
        }
    }
}

/// Editing one ASCII character edits one byte.
proof fn lemma_encode_edit(s: Seq<char>, index: int, c: char) -> (at: int)
    requires
        0 <= index < s.len(),
        s[index] <= '\u{7f}',
        c <= '\u{7f}',
    ensures
        0 <= at < encode_utf8(s).len(),
        encode_utf8(s)[at] == s[index] as u8,
        encode_utf8(s.update(index, c)) == encode_utf8(s).update(at, c as u8),
    decreases s.len(),
{
    let edited = s.update(index, c);
    let first = encode_scalar(s[0] as u32);
    if index == 0 {
        text::lemma_char_range(s[0]);
        let a = s[0] as u32;
        let b = c as u32;
        assert(a as u8 == leading_byte_width_1(a)) by (bit_vector)
            requires
                has_width_1_encoding(a),
        ;
        assert(b as u8 == leading_byte_width_1(b)) by (bit_vector)
            requires
                has_width_1_encoding(b),
        ;
        assert(edited.drop_first() =~= s.drop_first());
        assert(encode_utf8(edited) =~= encode_utf8(s).update(0, c as u8));
        0
    } else {
        let rest = s.drop_first();
        let at = lemma_encode_edit(rest, index - 1, c);
        assert(edited.drop_first() =~= rest.update(index - 1, c));
        assert(encode_utf8(edited) =~= encode_utf8(s).update(first.len() + at, c as u8));
        first.len() + at
    }
}

/// Replacing one ASCII character of a text by another changes the hash of the text.
pub proof fn law_edit_changes_hash(s: Seq<char>, index: int, c: char)
    requires
        0 <= index < s.len(),
        s[index] <= '\u{7f}',
        c <= '\u{7f}',
        c != s[index],
    ensures
        hash::text_hash(s) != hash::text_hash(s.update(index, c)),
{
    let at = lemma_encode_edit(s, index, c);
    let bytes = encode_utf8(s);
    text::lemma_char_range(s[index]);
    let a = s[index] as u32;
    let b = c as u32;
    assert(a != b);
    assert(a as u8 != b as u8) by (bit_vector)
        requires
            a != b,
            a <= 0x7f,
            b <= 0x7f,
    ;
    law_byte_edit_changes_djb2(bytes, at, c as u8);
    lemma_djb2_bound(bytes);
    lemma_djb2_bound(bytes.update(at, c as u8));
    if hash::text_hash(s) == hash::text_hash(s.update(index, c)) {
        numerals::lemma_hex_injective(
            hash::djb2(bytes),
            hash::djb2(bytes.update(at, c as u8)),
        );
    }
}

/// A hash is written as sixteen lower-case hexadecimal digits.
pub proof fn law_hash_is_sixteen_digits(s: Seq<char>)
    ensures
        hash::text_hash(s).len() == 16,
        forall|i: int|
            0 <= i < 16 ==> {
                ||| '0' <= #[trigger] hash::text_hash(s)[i] <= '9'
                ||| 'a' <= hash::text_hash(s)[i] <= 'f'
            },
{
    numerals::lemma_hex_len(hash::djb2(encode_utf8(s)), 16);
    numerals::lemma_hex_digits(hash::djb2(encode_utf8(s)), 16);
}

} // verus!
