use vstd::prelude::*;

verus! {

/// The character of a decimal digit.
pub open spec fn digit_char(d: nat) -> char {
    if d == 0 { '0' }
    else if d == 1 { '1' }
    else if d == 2 { '2' }
    else if d == 3 { '3' }
    else if d == 4 { '4' }
    else if d == 5 { '5' }
    else if d == 6 { '6' }
    else if d == 7 { '7' }
    else if d == 8 { '8' }
    else { '9' }
}

/// The decimal digits of `n`, most significant first, without leading zeros.
pub open spec fn decimal(n: nat) -> Seq<char>
    decreases n,
{
    if n < 10 {
        seq![digit_char(n)]
    } else {
        decimal(n / 10) + seq![digit_char(n % 10)]
    }
}

/// `n` in decimal, left-padded with `'0'` to at least `width` characters.
pub open spec fn padded_decimal(n: nat, width: nat) -> Seq<char> {
    let digits = decimal(n);
    if digits.len() < width {
        Seq::new((width - digits.len()) as nat, |i: int| '0') + digits
    } else {
        digits
    }
}

fn digit_str(d: u32) -> (s: &'static str)
    requires
        d < 10,
    ensures
        s@ == seq![digit_char(d as nat)],
{
    proof {
        reveal_strlit("0");
        reveal_strlit("1");
        reveal_strlit("2");
        reveal_strlit("3");
        reveal_strlit("4");
        reveal_strlit("5");
        reveal_strlit("6");
        reveal_strlit("7");
        reveal_strlit("8");
        reveal_strlit("9");
    }
    match d {
        0 => "0",
        1 => "1",
        2 => "2",
        3 => "3",
        4 => "4",
        5 => "5",
        6 => "6",
        7 => "7",
        8 => "8",
        _ => "9",
    }
}

/// Appends the decimal digits of `n` to `out`.
pub fn push_decimal(out: &mut String, n: u32)
    ensures
        final(out)@ == old(out)@ + decimal(n as nat),
    decreases n,
{
    if n >= 10 {
        push_decimal(out, n / 10);
    }
    out.append(digit_str(n % 10));
    assert(n >= 10 ==> decimal(n as nat) == decimal((n / 10) as nat) + seq![digit_char((n % 10) as nat)]);
}

/// The number of decimal digits of `n`.
fn count_digits(n: u32) -> (c: u32)
    ensures
        c as nat == decimal(n as nat).len(),
        1 <= c <= 10,
    decreases n,
{
    if n < 10 {
        1
    } else {
        let c = count_digits(n / 10);
        proof {
            assert(ten_pow(9) == 1000000000) by {
                reveal_with_fuel(ten_pow, 10);
            }
            lemma_decimal_len_bound((n / 10) as nat, 9);
        }
        c + 1
    }
}

spec fn ten_pow(k: nat) -> nat
    decreases k,
{
    if k == 0 { 1 } else { 10 * ten_pow((k - 1) as nat) }
}

proof fn lemma_decimal_len_bound(n: nat, k: nat)
    requires
        k >= 1,
        n < ten_pow(k),
    ensures
        decimal(n).len() <= k,
    decreases n,
{
    if n >= 10 {
        let t = ten_pow((k - 1) as nat);
        assert(k >= 2) by {
            if k == 1 {
                assert(ten_pow(0) == 1);
            }
        }
        assert(n / 10 < t) by (nonlinear_arith)
            requires n < 10 * t;
        lemma_decimal_len_bound(n / 10, (k - 1) as nat);
    }
}

/// Appends `n` in decimal to `out`, left-padded with zeros to `width` characters.
pub fn push_padded_decimal(out: &mut String, n: u32, width: u32)
    ensures
        final(out)@ == old(out)@ + padded_decimal(n as nat, width as nat),
{
    let digits = count_digits(n);
    let ghost start = out@;
    if digits < width {
        let mut pad: u32 = 0;
        while pad < width - digits
            invariant
                digits < width,
                pad <= width - digits,
                out@ == start + Seq::new(pad as nat, |i: int| '0'),
            decreases width - digits - pad,
        {
            proof {
                reveal_strlit("0");
            }
            out.append("0");
            pad = pad + 1;
            assert(out@ =~= start + Seq::new(pad as nat, |i: int| '0'));
        }
    }
    push_decimal(out, n);
    assert(out@ =~= start + padded_decimal(n as nat, width as nat));
}

} // verus!

verus! {

/// The value of a decimal digit character (0 for any other character).
pub open spec fn digit_value(c: char) -> int {
    if c == '1' { 1 }
    else if c == '2' { 2 }
    else if c == '3' { 3 }
    else if c == '4' { 4 }
    else if c == '5' { 5 }
    else if c == '6' { 6 }
    else if c == '7' { 7 }
    else if c == '8' { 8 }
    else if c == '9' { 9 }
    else { 0 }
}

/// The number that the decimal digits `text` write.
pub open spec fn decimal_value(text: Seq<char>) -> int
    decreases text.len(),
{
    if text.len() == 0 {
        0
    } else {
        decimal_value(text.drop_last()) * 10 + digit_value(text.last())
    }
}

proof fn lemma_decimal_value(n: nat)
    ensures
        decimal_value(decimal(n)) == n,
        decimal(n).len() >= 1,
    decreases n,
{
    if n >= 10 {
        lemma_decimal_value(n / 10);
        let d = decimal(n / 10) + seq![digit_char(n % 10)];
        assert(d.drop_last() =~= decimal(n / 10));
        assert(d.last() == digit_char(n % 10));
        lemma_digit_round_trip(n % 10);
        assert(decimal(n) == d);
        assert(decimal_value(d) == decimal_value(d.drop_last()) * 10 + digit_value(d.last()));
        assert(n == (n / 10) * 10 + n % 10);
    } else {
        let d = seq![digit_char(n)];
        assert(d.drop_last() =~= Seq::<char>::empty());
        lemma_digit_round_trip(n);
        assert(decimal(n) == d);
        assert(decimal_value(Seq::<char>::empty()) == 0);
        assert(decimal_value(d) == decimal_value(d.drop_last()) * 10 + digit_value(d.last()));
    }
}

proof fn lemma_digit_round_trip(d: nat)
    requires
        d < 10,
    ensures
        digit_value(digit_char(d)) == d,
{
}

proof fn lemma_zeros_value(zeros: Seq<char>, digits: Seq<char>)
    requires
        forall|i: int| 0 <= i < zeros.len() ==> zeros[i] == '0',
    ensures
        decimal_value(zeros + digits) == decimal_value(digits),
    decreases digits.len(),
{
    if digits.len() == 0 {
        assert(zeros + digits =~= zeros);
        lemma_all_zeros(zeros);
    } else {
        lemma_zeros_value(zeros, digits.drop_last());
        assert((zeros + digits).drop_last() =~= zeros + digits.drop_last());
    }
}

proof fn lemma_all_zeros(zeros: Seq<char>)
    requires
        forall|i: int| 0 <= i < zeros.len() ==> zeros[i] == '0',
    ensures
        decimal_value(zeros) == 0,
    decreases zeros.len(),
{
    if zeros.len() > 0 {
        lemma_all_zeros(zeros.drop_last());
    }
}

/// Padded decimal text gives back its number, whatever the width, and is
/// exactly `width` characters long when the number has no more digits.
pub proof fn law_padded_decimal_reads_back(n: nat, width: nat)
    ensures
        decimal_value(padded_decimal(n, width)) == n,
        padded_decimal(n, width).len() >= width,
        n < 100 && width == 2 ==> padded_decimal(n, width).len() == 2,
{
    lemma_decimal_value(n);
    let digits = decimal(n);
    if digits.len() < width {
        lemma_zeros_value(Seq::new((width - digits.len()) as nat, |i: int| '0'), digits);
    }
    if n < 100 {
        if n >= 10 {
            lemma_decimal_value(n / 10);
            assert(decimal(n / 10).len() == 1);
        }
    }
}

} // verus!

verus! {

/// Decimal text ends with the last digit of its number, and before it
/// stands the text of the number without that digit; a number below ten is
/// its one digit.
pub proof fn law_decimal_digits(n: nat)
    ensures
        decimal(n).last() == digit_char(n % 10),
        n >= 10 ==> decimal(n).drop_last() == decimal(n / 10),
        n < 10 ==> decimal(n) == seq![digit_char(n)],
        padded_decimal(n, 2).len() >= 2,
{
    if n >= 10 {
        assert((decimal(n / 10) + seq![digit_char(n % 10)]).drop_last() =~= decimal(n / 10));
    }
    law_padded_decimal_reads_back(n, 2);
}

} // verus!
