//! How numbers stand in messages.

use vstd::prelude::*;

use crate::text;

verus! {

/// The value of a lower-case digit.
pub open spec fn digit(c: char) -> int {
    if c as int >= 0x61 {
        c as int - 0x61 + 10
    } else {
        c as int - 0x30
    }
}

proof fn lemma_digit(n: int)
    requires
        0 <= n < 16,
    ensures
        digit(text::lower_digit(n)) == n,
        n < 10 ==> '0' <= text::lower_digit(n) <= '9',
        n > 0 ==> text::lower_digit(n) != '0',
{
    let c = text::lower_digit(n);
    if n < 10 {
        assert(c as int == 0x30 + n);
    } else {
        assert(c as int == 0x61 + n - 10);
    }
}

/// The value of decimal digits.
pub open spec fn ten_value(s: Seq<char>) -> int
    decreases s.len(),
{
    if s.len() == 0 {
        0
    } else {
        10 * ten_value(s.drop_last()) + digit(s.last())
    }
}

/// The value of hexadecimal digits.
pub open spec fn sixteen_value(s: Seq<char>) -> int
    decreases s.len(),
{
    if s.len() == 0 {
        0
    } else {
        16 * sixteen_value(s.drop_last()) + digit(s.last())
    }
}

/// A decimal number has the value that it stands for, in decimal digits, and does not begin with a
/// zero but for zero itself.
pub proof fn decimal_has_its_value(n: nat)
    ensures
        ten_value(text::decimal(n)) == n,
        text::decimal(n).len() > 0,
        n > 0 ==> text::decimal(n)[0] != '0',
        forall|i: int| 0 <= i < text::decimal(n).len() ==> '0' <= #[trigger] text::decimal(n)[i]
            <= '9',
    decreases n,
{
    let s = text::decimal(n);
    lemma_digit((n % 10) as int);
    if n >= 10 {
        decimal_has_its_value(n / 10);
        assert(s.drop_last() =~= text::decimal(n / 10));
        assert(s[0] == text::decimal(n / 10)[0]);
        assert forall|i: int| 0 <= i < s.len() implies '0' <= #[trigger] s[i] <= '9' by {
            if i < s.len() - 1 {
                assert(s[i] == text::decimal(n / 10)[i]);
            }
        }
    } else {
        assert(s.drop_last() =~= Seq::<char>::empty());
        assert(ten_value(s.drop_last()) == 0);
    }
}

/// A hexadecimal number has the value that it stands for.
pub proof fn hexadecimal_has_its_value(n: nat)
    ensures
        sixteen_value(text::hexadecimal(n)) == n,
        text::hexadecimal(n).len() > 0,
    decreases n,
{
    let s = text::hexadecimal(n);
    lemma_digit((n % 16) as int);
    assert(digit(s.last()) == n % 16);
    if n >= 16 {
        hexadecimal_has_its_value(n / 16);
        assert(s.drop_last() =~= text::hexadecimal(n / 16));
    } else {
        assert(s.drop_last() =~= Seq::<char>::empty());
        assert(sixteen_value(s.drop_last()) == 0);
    }
}

/// A byte has two digits, and a word has eight.
pub proof fn fixed_numbers_have_their_value(b: u8, v: u32)
    ensures
        text::hex2(b).len() == 2 && sixteen_value(text::hex2(b)) == b,
        text::hex8(v).len() == 8 && sixteen_value(text::hex8(v)) == v,
{
    lemma_digit(b as int / 16);
    lemma_digit(b as int % 16);
    lemma_digit(v as int / 0x1000_0000);
    lemma_digit(v as int / 0x100_0000 % 16);
    lemma_digit(v as int / 0x10_0000 % 16);
    lemma_digit(v as int / 0x1_0000 % 16);
    lemma_digit(v as int / 0x1000 % 16);
    lemma_digit(v as int / 0x100 % 16);
    lemma_digit(v as int / 0x10 % 16);
    lemma_digit(v as int % 16);
    let s = text::hex2(b);
    let s1 = s.drop_last();
    assert(s1.drop_last() =~= Seq::<char>::empty());
    assert(sixteen_value(s1.drop_last()) == 0);
    assert(sixteen_value(s1) == b as int / 16);
    let t = text::hex8(v);
    let n = v as int;
    let t7 = t.drop_last();
    let t6 = t7.drop_last();
    let t5 = t6.drop_last();
    let t4 = t5.drop_last();
    let t3 = t4.drop_last();
    let t2 = t3.drop_last();
    let t1 = t2.drop_last();
    assert(t1.drop_last() =~= Seq::<char>::empty());
    assert(sixteen_value(t1.drop_last()) == 0);
    assert(sixteen_value(t1) == n / 0x1000_0000);
    assert(sixteen_value(t2) == n / 0x100_0000);
    assert(sixteen_value(t3) == n / 0x10_0000);
    assert(sixteen_value(t4) == n / 0x1_0000);
    assert(sixteen_value(t5) == n / 0x1000);
    assert(sixteen_value(t6) == n / 0x100);
    assert(sixteen_value(t7) == n / 0x10);
}

} // verus!
