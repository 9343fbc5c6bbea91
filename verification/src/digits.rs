//! Decimal numbers as text: reading an unsigned 32-bit number out of a run of characters, and
//! writing one back.

use vstd::prelude::*;

verus! {

/// An ASCII decimal digit.
pub open spec fn is_digit(c: char) -> bool {
    '0' <= c && c <= '9'
}

/// The number a digit stands for; 0 for every other character.
pub open spec fn digit_value(c: char) -> nat {
    if is_digit(c) {
        (c as int - '0' as int) as nat
    } else {
        0
    }
}

/// Every character of `s` is a digit.
pub open spec fn all_digits(s: Seq<char>) -> bool {
    forall|i: int| 0 <= i < s.len() ==> is_digit(#[trigger] s[i])
}

/// The number that `s` denotes in base ten, most significant digit first.
pub open spec fn decimal_value(s: Seq<char>) -> nat
    decreases s.len(),
{
    if s.len() == 0 {
        0
    } else {
        10 * decimal_value(s.drop_last()) + digit_value(s.last())
    }
}

/// `s` without its sign: one leading `+` is dropped when something follows it.
pub open spec fn unsigned_part(s: Seq<char>) -> Seq<char> {
    if s.len() > 1 && s[0] == '+' {
        s.skip(1)
    } else {
        s
    }
}

/// The unsigned 32-bit number written in `s`: an optional `+`, then one or more digits and
/// nothing else, whose value fits in 32 bits. Anything else is no number.
pub open spec fn parsed_u32(s: Seq<char>) -> Option<u32> {
    let d = unsigned_part(s);
    if d.len() > 0 && all_digits(d) && decimal_value(d) <= u32::MAX {
        Some(decimal_value(d) as u32)
    } else {
        None
    }
}

/// The character for a single digit `0..=9`.
pub open spec fn digit_char(d: nat) -> char {
    (d + 48) as u8 as char
}

/// `n` written in base ten without sign or leading zeros.
pub open spec fn decimal_text(n: nat) -> Seq<char>
    decreases n,
{
    if n < 10 {
        seq![digit_char(n)]
    } else {
        decimal_text(n / 10).push(digit_char(n % 10))
    }
}

/// A prefix of a digit string never denotes more than the whole string.
pub proof fn lemma_decimal_value_prefix(s: Seq<char>, k: int)
    requires
        0 <= k <= s.len(),
    ensures
        decimal_value(s.take(k)) <= decimal_value(s),
    decreases s.len(),
{
    if k == s.len() {
        assert(s.take(k) == s);
    } else {
        assert(s.take(k) == s.drop_last().take(k));
        lemma_decimal_value_prefix(s.drop_last(), k);
    }
}

/// What `decimal_text` writes is made of digits, does not begin with a sign, and denotes the
/// number that was written.
pub proof fn lemma_decimal_text(n: nat)
    ensures
        decimal_text(n).len() > 0,
        all_digits(decimal_text(n)),
        decimal_value(decimal_text(n)) == n,
    decreases n,
{
    let text = decimal_text(n);
    if n < 10 {
        assert(decimal_value(text.drop_last()) == 0);
    } else {
        lemma_decimal_text(n / 10);
        assert(text.drop_last() =~= decimal_text(n / 10));
    }
}

/// Written and read back: a number that fits in 32 bits, written in base ten, is read as the
/// number that was written.
pub proof fn lemma_written_number_reads_back(n: u32)
    ensures
        parsed_u32(decimal_text(n as nat)) == Some(n),
{
    lemma_decimal_text(n as nat);
}

/// The test for a digit.
pub fn is_digit_char(c: char) -> (b: bool)
    ensures
        b == is_digit(c),
{
    c >= '0' && c <= '9'
}

/// Reads an unsigned 32-bit decimal number; `None` where `chars` is not one.
pub fn parse_u32(chars: &[char]) -> (r: Option<u32>)
    ensures
        r == parsed_u32(chars@),
{
    let n = chars.len();
    if n == 0 {
        return None;
    }
    let start: usize = if n > 1 && chars[0] == '+' { 1 } else { 0 };
    let ghost d = unsigned_part(chars@);
    let mut acc: u32 = 0;
    let mut i: usize = start;
    while i < n
        invariant
            start <= i <= n,
            n == chars@.len(),
            d == chars@.skip(start as int),
            d == unsigned_part(chars@),
            all_digits(d.take(i - start)),
            acc == decimal_value(d.take(i - start)),
        decreases n - i,
    {
        let c = chars[i];
        if !is_digit_char(c) {
            assert(d[i - start] == c);
            return None;
        }
        let v: u32 = (c as u32) - 48;
        assert(d.take(i + 1 - start).drop_last() == d.take(i - start));
        if acc > 429496729 || (acc == 429496729 && v > 5) {
            proof {
                lemma_decimal_value_prefix(d, i + 1 - start);
            }
            return None;
        }
        acc = acc * 10 + v;
        i += 1;
    }
    assert(d.take(n - start) == d);
    Some(acc)
}

/// Appends `n` in base ten to `out`.
pub fn push_decimal(n: u32, out: &mut Vec<char>)
    ensures
        final(out)@ == old(out)@ + decimal_text(n as nat),
    decreases n,
{
    if n >= 10 {
        push_decimal(n / 10, out);
    }
    let d: u8 = (n % 10) as u8;
    out.push((d + 48) as char);
}

} // verus!
