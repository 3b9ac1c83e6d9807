use vstd::prelude::*;
use num_format::Locale;
use num_format::ToFormattedString;

verus! {

/// The character of decimal digit `d`.
pub open spec fn digit(d: int) -> char {
    (48 + d) as char
}

/// The decimal notation of `n`, without leading zeros.
pub open spec fn decimal(n: nat) -> Seq<char>
    decreases n,
{
    if n < 10 {
        seq![digit(n as int)]
    } else {
        decimal(n / 10).push(digit((n % 10) as int))
    }
}

/// The three decimal digits of `n` below one thousand, with leading zeros.
pub open spec fn three_digits(n: nat) -> Seq<char> {
    seq![digit((n / 100) as int), digit((n / 10 % 10) as int), digit((n % 10) as int)]
}

/// The decimal notation of `n` with a comma between groups of three digits
/// (English notation: 1,234,567).
pub open spec fn grouped(n: nat) -> Seq<char>
    decreases n,
{
    if n < 1000 {
        decimal(n)
    } else {
        grouped(n / 1000) + seq![','] + three_digits(n % 1000)
    }
}

/// Formats `n` with num_format's `to_formatted_string` for the English
/// locale. Claimed: the result is the decimal notation with a comma between
/// groups of three digits (the locale's separator is "," and its grouping
/// is the standard one of three digits).
#[verifier::external_body]
fn formatted(n: u64) -> (s: String)
    ensures
        s@ == grouped(n as nat),
{
    n.to_formatted_string(&Locale::en)
}

/// The character of hexadecimal digit `d`, with upper-case letters.
pub open spec fn hex_digit(d: int) -> char {
    if d < 10 { (48 + d) as char } else { (55 + d) as char }
}

/// The two hexadecimal digits of a byte, upper case, with a leading zero.
pub open spec fn hex2(b: u8) -> Seq<char> {
    seq![hex_digit(b as int / 16), hex_digit(b as int % 16)]
}

/// Appends hexadecimal digit `d` (a decimal digit when below ten).
pub fn push_digit(s: &mut String, d: u64)
    requires
        d < 16,
    ensures
        final(s)@ == old(s)@.push(hex_digit(d as int)),
{
    if d == 0 {
        proof { reveal_strlit("0"); }
        s.append("0");
    } else if d == 1 {
        proof { reveal_strlit("1"); }
        s.append("1");
    } else if d == 2 {
        proof { reveal_strlit("2"); }
        s.append("2");
    } else if d == 3 {
        proof { reveal_strlit("3"); }
        s.append("3");
    } else if d == 4 {
        proof { reveal_strlit("4"); }
        s.append("4");
    } else if d == 5 {
        proof { reveal_strlit("5"); }
        s.append("5");
    } else if d == 6 {
        proof { reveal_strlit("6"); }
        s.append("6");
    } else if d == 7 {
        proof { reveal_strlit("7"); }
        s.append("7");
    } else if d == 8 {
        proof { reveal_strlit("8"); }
        s.append("8");
    } else if d == 9 {
        proof { reveal_strlit("9"); }
        s.append("9");
    } else if d == 10 {
        proof { reveal_strlit("A"); }
        s.append("A");
    } else if d == 11 {
        proof { reveal_strlit("B"); }
        s.append("B");
    } else if d == 12 {
        proof { reveal_strlit("C"); }
        s.append("C");
    } else if d == 13 {
        proof { reveal_strlit("D"); }
        s.append("D");
    } else if d == 14 {
        proof { reveal_strlit("E"); }
        s.append("E");
    } else {
        proof { reveal_strlit("F"); }
        s.append("F");
    }
    assert(s@ =~= old(s)@.push(hex_digit(d as int)));
}

/// Appends the decimal notation of `n`.
pub fn push_decimal(s: &mut String, n: u64)
    ensures
        final(s)@ == old(s)@ + decimal(n as nat),
    decreases n,
{
    if n >= 10 {
        push_decimal(s, n / 10);
    }
    push_digit(s, n % 10);
    proof {
        if n >= 10 {
            assert(decimal(n as nat) == decimal((n / 10) as nat).push(digit((n % 10) as int)));
        }
        assert(s@ =~= old(s)@ + decimal(n as nat));
    }
}

/// Appends the two hexadecimal digits of `b`.
pub fn push_hex2(s: &mut String, b: u8)
    ensures
        final(s)@ == old(s)@ + hex2(b),
{
    push_digit(s, (b / 16) as u64);
    push_digit(s, (b % 16) as u64);
    assert(s@ =~= old(s)@ + hex2(b));
}

/// The hexadecimal notation of `n`, upper case, without leading zeros.
pub open spec fn hex(n: nat) -> Seq<char>
    decreases n,
{
    if n < 16 {
        seq![hex_digit(n as int)]
    } else {
        hex(n / 16).push(hex_digit((n % 16) as int))
    }
}

/// Appends the hexadecimal notation of `n`.
pub fn push_hex(s: &mut String, n: u128)
    ensures
        final(s)@ == old(s)@ + hex(n as nat),
    decreases n,
{
    if n >= 16 {
        push_hex(s, n / 16);
    }
    push_digit(s, (n % 16) as u64);
    proof {
        if n >= 16 {
            assert(hex(n as nat) == hex((n / 16) as nat).push(hex_digit((n % 16) as int)));
        }
        assert(s@ =~= old(s)@ + hex(n as nat));
    }
}

/// The decimal and hexadecimal notations, read off the digit alphabets: a
/// number below the base is its one digit, a larger one is the notation of
/// its quotient followed by the digit of its remainder.
pub proof fn lemma_notations(n: nat)
    ensures
        n < 10 ==> decimal(n) == seq!["0123456789"@[n as int]],
        n >= 10 ==> decimal(n) == decimal(n / 10) + seq!["0123456789"@[(n % 10) as int]],
        n < 16 ==> hex(n) == seq!["0123456789ABCDEF"@[n as int]],
        n >= 16 ==> hex(n) == hex(n / 16) + seq!["0123456789ABCDEF"@[(n % 16) as int]],
{
    reveal_strlit("0123456789");
    reveal_strlit("0123456789ABCDEF");
    if n < 10 {
        assert(decimal(n) =~= seq!["0123456789"@[n as int]]);
    } else {
        assert(decimal(n) =~= decimal(n / 10) + seq!["0123456789"@[(n % 10) as int]]);
    }
    if n < 16 {
        assert(hex(n) =~= seq!["0123456789ABCDEF"@[n as int]]);
    } else {
        assert(hex(n) =~= hex(n / 16) + seq!["0123456789ABCDEF"@[(n % 16) as int]]);
    }
}

/// The decimal notation of `n` as a string.
pub fn decimal_string(n: usize) -> (s: String)
    ensures
        s@ == decimal(n as nat),
{
    let mut s = String::new();
    push_decimal(&mut s, n as u64);
    assert(s@ =~= decimal(n as nat));
    s
}

/// The name of the array-sum benchmark for `count` elements.
pub fn sum_array_name(count: u64) -> (name: String)
    ensures
        name@ == "Sum array (n = "@ + grouped(count as nat) + ")"@,
{
    let number = formatted(count);
    let name = String::from_str("Sum array (n = ");
    let name = name.concat(number.as_str());
    name.concat(")")
}

/// The name of the function-sum benchmark for `count` arguments.
pub fn sum_function_name(count: u64) -> (name: String)
    ensures
        name@ == "Sum function (n = "@ + grouped(count as nat) + ")"@,
{
    let number = formatted(count);
    let name = String::from_str("Sum function (n = ");
    let name = name.concat(number.as_str());
    name.concat(")")
}

/// The name of the sorting benchmark for `size` elements.
pub fn sort_name(size: usize) -> (name: String)
    ensures
        name@ == "Sort (n = "@ + grouped(size as nat) + ")"@,
{
    let number = formatted(size as u64);
    let name = String::from_str("Sort (n = ");
    let name = name.concat(number.as_str());
    name.concat(")")
}

/// The name of the LU-decomposition benchmark for `matrix_count` matrices
/// of `size` rows.
pub fn lud_name(size: usize, matrix_count: usize) -> (name: String)
    ensures
        name@ == "LUD (n = "@ + grouped(size as nat) + ", m = "@ + grouped(matrix_count as nat) + ")"@,
{
    let n = formatted(size as u64);
    let m = formatted(matrix_count as u64);
    let name = String::from_str("LUD (n = ");
    let name = name.concat(n.as_str());
    let name = name.concat(", m = ");
    let name = name.concat(m.as_str());
    name.concat(")")
}

/// The chart title of the LU-decomposition benchmark for `matrix_count`
/// matrices.
pub fn lud_title(matrix_count: usize) -> (title: String)
    ensures
        title@ == "m = "@ + grouped(matrix_count as nat),
{
    let m = formatted(matrix_count as u64);
    let title = String::from_str("m = ");
    title.concat(m.as_str())
}

/// The input file of the LU-decomposition benchmark for matrices of `size`
/// rows.
pub fn filename(size: usize) -> (name: String)
    ensures
        name@ == "./rodinia_3.1/data/lud/"@ + decimal(size as nat) + ".dat"@,
{
    let number = decimal_string(size);
    let name = String::from_str("./rodinia_3.1/data/lud/");
    let name = name.concat(number.as_str());
    name.concat(".dat")
}

} // verus!
