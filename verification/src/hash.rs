//! The content hash of a block.

use crate::numerals;
use vstd::prelude::*;

verus! {

/// The djb2 hash of a byte string, modulo two to the power of sixty-four.
pub open spec fn djb2(bytes: Seq<u8>) -> nat
    decreases bytes.len(),
{
    if bytes.len() == 0 {
        5381
    } else {
        ((djb2(bytes.drop_last()) * 33 + bytes.last()) % 0x1_0000_0000_0000_0000) as nat
    }
}

/// The hash of a text: djb2 over its UTF-8 bytes, as sixteen hexadecimal digits.
pub open spec fn text_hash(s: Seq<char>) -> Seq<char> {
    numerals::hex(djb2(vstd::utf8::encode_utf8(s)), 16)
}

/// The hash of a text: djb2 over its UTF-8 bytes, as sixteen hexadecimal digits.
pub fn content_hash(s: &str) -> (hash: String)
    ensures
        hash@ == text_hash(s@),
        hash@.len() == 16,
{
    let bytes = s.as_bytes();
    let mut h: u64 = 5381;
    let mut i: usize = 0;
    while i < bytes.len()
        invariant
            i <= bytes@.len(),
            h == djb2(bytes@.take(i as int)),
        decreases bytes@.len() - i,
    {
        let b = bytes[i];
        let ghost before = h;
        h = h.wrapping_mul(33).wrapping_add(b as u64);
        proof {
            assert(bytes@.take(i + 1).drop_last() =~= bytes@.take(i as int));
            vstd::arithmetic::div_mod::lemma_add_mod_noop(
                before * 33,
                b as int,
                0x1_0000_0000_0000_0000,
            );
            vstd::arithmetic::div_mod::lemma_small_mod(b as nat, 0x1_0000_0000_0000_0000);
        }
        i += 1;
    }
    assert(bytes@.take(i as int) =~= bytes@);
    proof {
        numerals::lemma_hex_len(h as nat, 16);
    }
    numerals::to_hex(h, 16)
}

} // verus!
