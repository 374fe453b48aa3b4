//! Decimal and hexadecimal numerals.

use vstd::prelude::*;

verus! {

/// The character for a digit below sixteen.
pub open spec fn digit_char(d: nat) -> char {
    "0123456789abcdef"@[d as int]
}

/// `n` in decimal, without leading zeros.
pub open spec fn decimal(n: nat) -> Seq<char>
    decreases n,
{
    if n < 10 {
        seq![digit_char(n)]
    } else {
        decimal(n / 10).push(digit_char(n % 10))
    }
}

/// The last `width` digits of `n` in lower-case hexadecimal, with leading zeros.
pub open spec fn hex(n: nat, width: nat) -> Seq<char>
    decreases width,
{
    if width == 0 {
        Seq::empty()
    } else {
        hex(n / 16, (width - 1) as nat).push(digit_char(n % 16))
    }
}

/// The character for a digit below sixteen.
fn digit(d: usize) -> (c: char)
    requires
        d < 16,
    ensures
        c == digit_char(d as nat),
{
    proof {
        reveal_strlit("0123456789abcdef");
    }
    "0123456789abcdef".get_char(d)
}

/// `n` in decimal, without leading zeros.
pub fn to_decimal(n: usize) -> (s: String)
    ensures
        s@ == decimal(n as nat),
    decreases n,
{
    let mut s = if n < 10 {
        String::new()
    } else {
        to_decimal(n / 10)
    };
    s.push(digit(n % 10));
    assert(n < 10 ==> s@ =~= decimal(n as nat));
    s
}

/// The last `width` digits of `n` in lower-case hexadecimal, with leading zeros.
pub fn to_hex(n: u64, width: usize) -> (s: String)
    ensures
        s@ == hex(n as nat, width as nat),
    decreases width,
{
    if width == 0 {
        String::new()
    } else {
        let mut s = to_hex(n / 16, width - 1);
        s.push(digit((n % 16) as usize));
        s
    }
}

/// A hexadecimal numeral has the width it was asked for.
pub proof fn lemma_hex_len(n: nat, width: nat)
    ensures
        hex(n, width).len() == width,
    decreases width,
{
    if width > 0 {
        lemma_hex_len(n / 16, (width - 1) as nat);
    }
}

/// The characters for the digits are those of the alphabet, all different.
pub proof fn lemma_digit_char(d: nat)
    requires
        d < 16,
    ensures
        '0' <= digit_char(d) <= '9' || 'a' <= digit_char(d) <= 'f',
        d < 10 ==> '0' <= digit_char(d) <= '9',
        forall|e: nat| e < 16 && #[trigger] digit_char(e) == digit_char(d) ==> e == d,
{
    reveal_strlit("0123456789abcdef");
}

/// A decimal numeral is a run of digits, at least one.
pub proof fn lemma_decimal_digits(n: nat)
    ensures
        decimal(n).len() > 0,
        forall|i: int| 0 <= i < decimal(n).len() ==> '0' <= #[trigger] decimal(n)[i] <= '9',
    decreases n,
{
    lemma_digit_char(n % 10);
    if n >= 10 {
        lemma_decimal_digits(n / 10);
    }
}

/// Different numbers have different decimal numerals.
pub proof fn lemma_decimal_injective(a: nat, b: nat)
    requires
        decimal(a) == decimal(b),
    ensures
        a == b,
    decreases a,
{
    let da = decimal(a);
    let db = decimal(b);
    lemma_digit_char(a % 10);
    lemma_digit_char(b % 10);
    lemma_decimal_digits(a / 10);
    lemma_decimal_digits(b / 10);
    assert(da.last() == digit_char(a % 10));
    assert(db.last() == digit_char(b % 10));
    if a >= 10 && b >= 10 {
        assert(da.drop_last() =~= decimal(a / 10));
        assert(db.drop_last() =~= decimal(b / 10));
        lemma_decimal_injective(a / 10, b / 10);
    }
}

/// A hexadecimal numeral is a run of lower-case hexadecimal digits.
pub proof fn lemma_hex_digits(n: nat, width: nat)
    ensures
        forall|i: int|
            0 <= i < hex(n, width).len() ==> {
                ||| '0' <= #[trigger] hex(n, width)[i] <= '9'
                ||| 'a' <= hex(n, width)[i] <= 'f'
            },
    decreases width,
{
    if width > 0 {
        let higher = hex(n / 16, (width - 1) as nat);
        let all = hex(n, width);
        lemma_digit_char(n % 16);
        lemma_hex_digits(n / 16, (width - 1) as nat);
        assert forall|i: int| 0 <= i < all.len() implies '0' <= #[trigger] all[i] <= '9' || 'a'
            <= all[i] <= 'f' by {
            if i < higher.len() {
                assert(all[i] == higher[i]);
            }
        }
    }
}

/// How many numbers can be written with `width` hexadecimal digits.
pub open spec fn hex_range(width: nat) -> nat
    decreases width,
{
    if width == 0 {
        1
    } else {
        16 * hex_range((width - 1) as nat)
    }
}

/// Different numbers in range have different hexadecimal numerals.
proof fn lemma_hex_injective_in_range(a: nat, b: nat, width: nat)
    requires
        a < hex_range(width),
        b < hex_range(width),
        hex(a, width) == hex(b, width),
    ensures
        a == b,
    decreases width,
{
    if width > 0 {
        let narrower = (width - 1) as nat;
        let ha = hex(a, width);
        let hb = hex(b, width);
        lemma_digit_char(a % 16);
        lemma_digit_char(b % 16);
        assert(ha.last() == digit_char(a % 16));
        assert(hb.last() == digit_char(b % 16));
        assert(ha.drop_last() =~= hex(a / 16, narrower));
        assert(hb.drop_last() =~= hex(b / 16, narrower));
        lemma_hex_injective_in_range(a / 16, b / 16, narrower);
    }
}

/// Different sixty-four bit numbers have different hexadecimal numerals of sixteen digits.
pub proof fn lemma_hex_injective(a: nat, b: nat)
    requires
        a < 0x1_0000_0000_0000_0000,
        b < 0x1_0000_0000_0000_0000,
        hex(a, 16) == hex(b, 16),
    ensures
        a == b,
{
    assert(hex_range(16) == 0x1_0000_0000_0000_0000) by {
        reveal_with_fuel(hex_range, 17);
    }
    lemma_hex_injective_in_range(a, b, 16);
}

} // verus!
