//! Decimal text of unsigned integers, as `format!("{}", n)` and
//! `format!("{:02}", n)` write them.
use vstd::prelude::*;

verus! {

/// The ASCII digit for `d < 10`.
pub open spec fn digit_char(d: nat) -> char {
    if d == 0 {
        '0'
    } else if d == 1 {
        '1'
    } else if d == 2 {
        '2'
    } else if d == 3 {
        '3'
    } else if d == 4 {
        '4'
    } else if d == 5 {
        '5'
    } else if d == 6 {
        '6'
    } else if d == 7 {
        '7'
    } else if d == 8 {
        '8'
    } else {
        '9'
    }
}

/// Whether `c` is one of the ASCII digits `0` to `9`.
pub open spec fn is_digit(c: char) -> bool {
    '0' <= c <= '9'
}

/// The decimal digits of `n`, most significant first, without leading zeros
/// (`0` is written as the single digit `0`).
pub open spec fn decimal(n: nat) -> Seq<char>
    decreases n,
{
    if n < 10 {
        seq![digit_char(n)]
    } else {
        decimal(n / 10).push(digit_char(n % 10))
    }
}

/// The decimal digits of `n`, padded on the left with zeros to at least
/// `width` characters.
pub open spec fn zero_padded(n: nat, width: nat) -> Seq<char> {
    let d = decimal(n);
    if d.len() < width {
        Seq::new((width - d.len()) as nat, |i: int| '0') + d
    } else {
        d
    }
}

/// The number that a text of digits reads as, most significant first.
pub open spec fn digits_value(s: Seq<char>) -> int
    decreases s.len(),
{
    if s.len() == 0 {
        0
    } else {
        10 * digits_value(s.drop_last()) + (s.last() as u32 - '0' as u32)
    }
}

/// The digit for `d` is the ASCII character `'0' + d`.
pub proof fn law_digit_char_is_ascii_digit(d: nat)
    requires
        d < 10,
    ensures
        digit_char(d) as u32 == '0' as u32 + d,
{
}

/// The decimal text of `n` reads back as `n`, and begins with a zero only
/// when `n` is zero.
pub proof fn law_decimal_reads_back(n: nat)
    ensures
        digits_value(decimal(n)) == n,
        decimal(n)[0] == '0' ==> n == 0,
    decreases n,
{
    if n >= 10 {
        law_decimal_reads_back(n / 10);
        lemma_decimal_digits(n / 10);
        let d = decimal(n);
        assert(d == decimal(n / 10).push(digit_char(n % 10)));
        assert(d.drop_last() =~= decimal(n / 10));
        assert(d.last() == digit_char(n % 10));
        law_digit_char_is_ascii_digit(n % 10);
        assert(digits_value(d) == 10 * digits_value(decimal(n / 10)) + (n % 10));
        assert(10 * (n / 10) + n % 10 == n);
        assert(d[0] == decimal(n / 10)[0]);
    } else {
        law_digit_char_is_ascii_digit(n);
        let d = seq![digit_char(n)];
        assert(d.drop_last() =~= Seq::<char>::empty());
        assert(digits_value(Seq::<char>::empty()) == 0);
        assert(digits_value(d) == 10 * digits_value(d.drop_last()) + (d.last() as u32 - '0' as u32));
    }
}

/// Leading zeros do not change what a text of digits reads as.
proof fn lemma_zeros_read_as_nothing(k: nat, d: Seq<char>)
    ensures
        digits_value(Seq::new(k, |i: int| '0') + d) == digits_value(d),
    decreases d.len() + k,
{
    let z = Seq::new(k, |i: int| '0');
    if d.len() == 0 {
        assert(z + d =~= z);
        if k > 0 {
            assert(z.drop_last() =~= Seq::new((k - 1) as nat, |i: int| '0'));
            lemma_zeros_read_as_nothing((k - 1) as nat, d);
            assert(Seq::new((k - 1) as nat, |i: int| '0') + d =~= Seq::new((k - 1) as nat, |i: int| '0'));
        }
    } else {
        lemma_zeros_read_as_nothing(k, d.drop_last());
        assert((z + d).drop_last() =~= z + d.drop_last());
    }
}

/// The zero-padded text of `n` is at least `width` digits long and reads
/// back as `n`.
pub proof fn law_zero_padded_reads_back(n: nat, width: nat)
    ensures
        zero_padded(n, width).len() >= width,
        digits_value(zero_padded(n, width)) == n,
        forall|i: int| 0 <= i < zero_padded(n, width).len() ==> is_digit(#[trigger] zero_padded(n, width)[i]),
{
    law_decimal_reads_back(n);
    lemma_decimal_digits(n);
    let d = decimal(n);
    if d.len() < width {
        let k = (width - d.len()) as nat;
        lemma_zeros_read_as_nothing(k, d);
        let z = zero_padded(n, width);
        assert forall|i: int| 0 <= i < z.len() implies is_digit(#[trigger] z[i]) by {
            if i >= k {
                assert(z[i] == d[i - k]);
            }
        }
    }
}

/// Every character of the decimal text of a number is a digit, and there is
/// at least one.
pub proof fn lemma_decimal_digits(n: nat)
    ensures
        decimal(n).len() >= 1,
        forall|i: int| 0 <= i < decimal(n).len() ==> is_digit(#[trigger] decimal(n)[i]),
    decreases n,
{
    if n >= 10 {
        lemma_decimal_digits(n / 10);
    }
}

/// Appends `c` to `s` (`String::push`).
#[verifier::external_body]
pub(crate) fn push_char(s: &mut String, c: char)
    ensures
        final(s)@ == old(s)@.push(c),
{
    s.push(c);
}

/// The digit character for `d < 10`.
fn digit_char_exec(d: u128) -> (c: char)
    requires
        d < 10,
    ensures
        c == digit_char(d as nat),
{
    match d {
        0 => '0',
        1 => '1',
        2 => '2',
        3 => '3',
        4 => '4',
        5 => '5',
        6 => '6',
        7 => '7',
        8 => '8',
        _ => '9',
    }
}

/// Appends the decimal text of `n`, zero-padded to at least `width`
/// characters, to `out`.
pub fn push_zero_padded(out: &mut String, n: u128, width: usize)
    ensures
        final(out)@ == old(out)@ + zero_padded(n as nat, width as nat),
{
    // Digits least significant first.
    let mut rev: Vec<char> = Vec::new();
    let mut m: u128 = n;
    loop
        invariant_except_break
            decimal(n as nat) == decimal(m as nat) + rev@.reverse(),
        ensures
            decimal(n as nat) == rev@.reverse(),
        decreases m,
    {
        let d = m % 10;
        let c = digit_char_exec(d);
        rev.push(c);
        proof {
            if m >= 10 {
                assert(decimal(m as nat) == decimal((m / 10) as nat).push(c));
                assert(rev@.reverse() == seq![c] + rev@.drop_last().reverse()) by {
                    assert(rev@.drop_last().push(c) == rev@);
                    assert(rev@.reverse() =~= seq![c] + rev@.drop_last().reverse());
                }
                assert(decimal(n as nat) =~= decimal((m / 10) as nat) + rev@.reverse());
            } else {
                assert(decimal(m as nat) == seq![c]);
                assert(rev@.reverse() =~= seq![c] + rev@.drop_last().reverse());
                assert(decimal(n as nat) =~= rev@.reverse());
            }
        }
        if m < 10 {
            assert(decimal(n as nat) =~= rev@.reverse());
            break;
        }
        m = m / 10;
    }
    let len = rev.len();
    let ghost start = out@;
    if len < width {
        let mut k: usize = 0;
        while k < width - len
            invariant
                len < width,
                out@ == start + Seq::new(k as nat, |i: int| '0'),
                k <= width - len,
            decreases width - len - k,
        {
            push_char(out, '0');
            k = k + 1;
            assert(out@ =~= start + Seq::new(k as nat, |i: int| '0'));
        }
    }
    let ghost mid = out@;
    let mut j: usize = len;
    while j > 0
        invariant
            j <= len == rev@.len(),
            out@ == mid + rev@.reverse().subrange(0, (len - j) as int),
        decreases j,
    {
        j = j - 1;
        let c = rev[j];
        push_char(out, c);
        assert(rev@.reverse()[(len - j - 1) as int] == rev@[j as int]);
        assert(out@ =~= mid + rev@.reverse().subrange(0, (len - j) as int));
    }
    assert(rev@.reverse().subrange(0, len as int) =~= rev@.reverse());
    assert(out@ =~= old(out)@ + zero_padded(n as nat, width as nat));
}

} // verus!
