//! Numbers written out as text.

use vstd::prelude::*;

verus! {

/// The digit for a value below sixteen.
pub open spec fn digit(d: nat) -> char {
    if d == 0 { '0' }
    else if d == 1 { '1' }
    else if d == 2 { '2' }
    else if d == 3 { '3' }
    else if d == 4 { '4' }
    else if d == 5 { '5' }
    else if d == 6 { '6' }
    else if d == 7 { '7' }
    else if d == 8 { '8' }
    else if d == 9 { '9' }
    else if d == 10 { 'a' }
    else if d == 11 { 'b' }
    else if d == 12 { 'c' }
    else if d == 13 { 'd' }
    else if d == 14 { 'e' }
    else { 'f' }
}

/// A natural number in decimal, without leading zeros.
pub open spec fn decimal(n: nat) -> Seq<char>
    decreases n,
{
    if n < 10 {
        seq![digit(n)]
    } else {
        decimal(n / 10).push(digit(n % 10))
    }
}

/// An integer in decimal, with a minus sign when negative.
pub open spec fn integer(n: int) -> Seq<char> {
    if n < 0 {
        seq!['-'] + decimal((-n) as nat)
    } else {
        decimal(n as nat)
    }
}

/// A natural number in lowercase hexadecimal, without leading zeros.
pub open spec fn hexadecimal(n: nat) -> Seq<char>
    decreases n,
{
    if n < 16 {
        seq![digit(n)]
    } else {
        hexadecimal(n / 16).push(digit(n % 16))
    }
}

/// `count` zeros.
pub open spec fn zeros(count: int) -> Seq<char> {
    Seq::new(if count < 0 { 0 } else { count as nat }, |i: int| '0')
}

/// A natural number in lowercase hexadecimal, with leading zeros up to `width` digits.
pub open spec fn padded_hexadecimal(n: nat, width: int) -> Seq<char> {
    zeros(width - hexadecimal(n).len()) + hexadecimal(n)
}

/// A byte as two lowercase hexadecimal digits.
pub open spec fn byte_digits(byte: u8) -> Seq<char> {
    seq![digit((byte / 16) as nat), digit((byte % 16) as nat)]
}

/// Bytes as lowercase hexadecimal digits, two for each.
pub open spec fn bytes_digits(bytes: Seq<u8>) -> Seq<char>
    decreases bytes.len(),
{
    if bytes.len() == 0 {
        seq![]
    } else {
        bytes_digits(bytes.drop_last()) + byte_digits(bytes.last())
    }
}

/// The digit for a value below sixteen.
fn digit_of(d: u8) -> (c: char)
    requires
        d < 16,
    ensures
        c == digit(d as nat),
{
    if d == 0 { '0' }
    else if d == 1 { '1' }
    else if d == 2 { '2' }
    else if d == 3 { '3' }
    else if d == 4 { '4' }
    else if d == 5 { '5' }
    else if d == 6 { '6' }
    else if d == 7 { '7' }
    else if d == 8 { '8' }
    else if d == 9 { '9' }
    else if d == 10 { 'a' }
    else if d == 11 { 'b' }
    else if d == 12 { 'c' }
    else if d == 13 { 'd' }
    else if d == 14 { 'e' }
    else { 'f' }
}

/// Appends a number in decimal.
pub fn push_decimal(out: &mut String, n: u128)
    ensures
        final(out)@ == old(out)@ + decimal(n as nat),
    decreases n,
{
    let ghost start = out@;
    if n >= 10 {
        push_decimal(out, n / 10);
    }
    out.push(digit_of((n % 10) as u8));
    assert(out@ =~= start + decimal(n as nat));
}

/// A number in decimal.
pub fn decimal_of(n: u128) -> (text: String)
    ensures
        text@ == decimal(n as nat),
{
    let mut text = String::new();
    push_decimal(&mut text, n);
    assert(Seq::<char>::empty() + decimal(n as nat) =~= decimal(n as nat));
    text
}

/// An integer in decimal, with a minus sign when negative.
pub fn integer_of(n: i128) -> (text: String)
    ensures
        text@ == integer(n as int),
{
    if n < 0 {
        let mut text = String::new();
        text.push('-');
        let magnitude: u128 = ((-(n + 1)) as u128) + 1;
        push_decimal(&mut text, magnitude);
        assert(text@ =~= integer(n as int));
        text
    } else {
        decimal_of(n as u128)
    }
}

/// Appends a number in lowercase hexadecimal.
fn push_hexadecimal(out: &mut String, n: u64)
    ensures
        final(out)@ == old(out)@ + hexadecimal(n as nat),
    decreases n,
{
    let ghost start = out@;
    if n >= 16 {
        push_hexadecimal(out, n / 16);
    }
    out.push(digit_of((n % 16) as u8));
    assert(out@ =~= start + hexadecimal(n as nat));
}

/// How many hexadecimal digits a number has.
fn hexadecimal_length(n: u64) -> (length: usize)
    ensures
        length == hexadecimal(n as nat).len(),
        length <= 16,
{
    let mut length: usize = 1;
    let mut rest: u64 = n;
    let ghost mut bound: int = 0x1_0000_0000_0000_0000;
    while rest >= 16
        invariant
            hexadecimal(n as nat).len() == length - 1 + hexadecimal(rest as nat).len(),
            1 <= length <= 16,
            rest < bound,
            length == 1 ==> bound == 0x1_0000_0000_0000_0000,
            length == 2 ==> bound == 0x1000_0000_0000_0000,
            length == 3 ==> bound == 0x100_0000_0000_0000,
            length == 4 ==> bound == 0x10_0000_0000_0000,
            length == 5 ==> bound == 0x1_0000_0000_0000,
            length == 6 ==> bound == 0x1000_0000_0000,
            length == 7 ==> bound == 0x100_0000_0000,
            length == 8 ==> bound == 0x10_0000_0000,
            length == 9 ==> bound == 0x1_0000_0000,
            length == 10 ==> bound == 0x1000_0000,
            length == 11 ==> bound == 0x100_0000,
            length == 12 ==> bound == 0x10_0000,
            length == 13 ==> bound == 0x1_0000,
            length == 14 ==> bound == 0x1000,
            length == 15 ==> bound == 0x100,
            length == 16 ==> bound == 0x10,
        decreases rest,
    {
        proof {
            bound = bound / 16;
        }
        rest = rest / 16;
        length += 1;
    }
    length
}

/// Appends a number in lowercase hexadecimal, with leading zeros up to `width` digits.
pub fn push_padded_hexadecimal(out: &mut String, n: u64, width: usize)
    ensures
        final(out)@ == old(out)@ + padded_hexadecimal(n as nat, width as int),
{
    let ghost start = out@;
    let length = hexadecimal_length(n);
    let mut i: usize = length;
    while i < width
        invariant
            length <= i,
            i <= width || i == length,
            out@ == start + zeros(i - length),
        decreases width - i,
    {
        out.push('0');
        assert(zeros(i + 1 - length) =~= zeros(i - length).push('0'));
        i += 1;
        assert(out@ =~= start + zeros(i - length));
    }
    assert(zeros(i - length) =~= zeros(width - length));
    push_hexadecimal(out, n);
    assert(out@ =~= start + padded_hexadecimal(n as nat, width as int));
}

/// Appends a byte as two lowercase hexadecimal digits.
pub fn push_byte(out: &mut String, byte: u8)
    ensures
        final(out)@ == old(out)@ + byte_digits(byte),
{
    let ghost start = out@;
    out.push(digit_of(byte / 16));
    out.push(digit_of(byte % 16));
    assert(out@ =~= start + byte_digits(byte));
}

/// Appends the first `count` bytes as lowercase hexadecimal digits.
pub fn push_bytes(out: &mut String, bytes: &[u8], count: usize)
    requires
        count <= bytes@.len(),
    ensures
        final(out)@ == old(out)@ + bytes_digits(bytes@.take(count as int)),
{
    let ghost start = out@;
    let mut i: usize = 0;
    assert(start + bytes_digits(bytes@.take(0)) =~= start);
    while i < count
        invariant
            i <= count <= bytes@.len(),
            out@ == start + bytes_digits(bytes@.take(i as int)),
        decreases count - i,
    {
        push_byte(out, bytes[i]);
        assert(bytes@.take(i + 1).drop_last() =~= bytes@.take(i as int));
        assert(out@ =~= start + bytes_digits(bytes@.take(i + 1)));
        i += 1;
    }
}

// ---------------------------------------------------------------------------
// Laws
// ---------------------------------------------------------------------------

/// Decimal text is never empty and holds nothing but decimal digits.
pub proof fn decimal_is_digits(n: nat)
    ensures
        decimal(n).len() > 0,
        forall|i: int| 0 <= i < decimal(n).len() ==> '0' <= #[trigger] decimal(n)[i] <= '9',
    decreases n,
{
    if n >= 10 {
        decimal_is_digits(n / 10);
    }
}

/// Two numbers with the same decimal text are the same number.
pub proof fn decimal_injective(a: nat, b: nat)
    requires
        decimal(a) == decimal(b),
    ensures
        a == b,
    decreases a,
{
    decimal_is_digits(a / 10);
    decimal_is_digits(b / 10);
    let x = decimal(a);
    let y = decimal(b);
    assert(x.last() == digit(a % 10));
    assert(y.last() == digit(b % 10));
    if a >= 10 && b >= 10 {
        assert(decimal(a / 10) =~= x.drop_last());
        assert(decimal(b / 10) =~= y.drop_last());
        decimal_injective(a / 10, b / 10);
        assert(a % 10 == b % 10);
    } else if a >= 10 {
        assert(x.len() > 1);
    } else if b >= 10 {
        assert(y.len() > 1);
    }
}

/// Two integers with the same decimal text are the same integer.
pub proof fn integer_injective(a: int, b: int)
    requires
        integer(a) == integer(b),
    ensures
        a == b,
{
    decimal_is_digits((if a < 0 { -a } else { a }) as nat);
    decimal_is_digits((if b < 0 { -b } else { b }) as nat);
    if a < 0 && b < 0 {
        assert(decimal((-a) as nat) =~= integer(a).drop_first());
        assert(decimal((-b) as nat) =~= integer(b).drop_first());
        decimal_injective((-a) as nat, (-b) as nat);
    } else if a < 0 {
        assert(integer(a)[0] == '-');
        assert(integer(b)[0] != '-');
    } else if b < 0 {
        assert(integer(b)[0] == '-');
        assert(integer(a)[0] != '-');
    } else {
        decimal_injective(a as nat, b as nat);
    }
}

/// Hexadecimal digits of bytes come two for each byte.
pub proof fn bytes_digits_length(bytes: Seq<u8>)
    ensures
        bytes_digits(bytes).len() == 2 * bytes.len(),
    decreases bytes.len(),
{
    if bytes.len() > 0 {
        bytes_digits_length(bytes.drop_last());
    }
}

/// Bytes with the same hexadecimal digits are the same bytes.
pub proof fn bytes_digits_injective(a: Seq<u8>, b: Seq<u8>)
    requires
        bytes_digits(a) == bytes_digits(b),
    ensures
        a == b,
    decreases a.len(),
{
    bytes_digits_length(a);
    bytes_digits_length(b);
    if a.len() > 0 {
        let front_a = a.drop_last();
        let front_b = b.drop_last();
        bytes_digits_length(front_a);
        bytes_digits_length(front_b);
        let all = bytes_digits(a);
        let n = 2 * front_a.len() as int;
        assert(bytes_digits(front_a) =~= all.take(n));
        assert(bytes_digits(front_b) =~= all.take(n));
        assert(all[n] == digit((a.last() / 16) as nat));
        assert(all[n + 1] == digit((a.last() % 16) as nat));
        assert(all[n] == digit((b.last() / 16) as nat));
        assert(all[n + 1] == digit((b.last() % 16) as nat));
        digit_injective((a.last() / 16) as nat, (b.last() / 16) as nat);
        digit_injective((a.last() % 16) as nat, (b.last() % 16) as nat);
        bytes_digits_injective(front_a, front_b);
        assert(a =~= front_a.push(a.last()));
        assert(b =~= front_b.push(b.last()));
    } else {
        assert(a =~= b);
    }
}

/// Two values below sixteen with the same digit are the same.
proof fn digit_injective(a: nat, b: nat)
    requires
        a < 16,
        b < 16,
        digit(a) == digit(b),
    ensures
        a == b,
{
}

/// The value of a hexadecimal digit in lower case; sixteen for what is none.
pub open spec fn digit_meant(c: char) -> nat {
    if '0' <= c <= '9' {
        (c as int - '0' as int) as nat
    } else if 'a' <= c <= 'f' {
        (c as int - 'a' as int + 10) as nat
    } else {
        16
    }
}

/// The number that digits mean, read from the left.
pub open spec fn number_meant(digits: Seq<char>, radix: nat) -> nat
    decreases digits.len(),
{
    if digits.len() == 0 {
        0
    } else {
        number_meant(digits.drop_last(), radix) * radix + digit_meant(digits.last())
    }
}

/// A digit means the value it stands for.
proof fn digit_reads_back(d: nat)
    requires
        d < 16,
    ensures
        digit_meant(digit(d)) == d,
        d < 10 ==> '0' <= digit(d) <= '9',
{
}

/// Decimal text reads back as the number, and starts with a zero only where it is
/// nothing but that zero.
pub proof fn decimal_reads_back(n: nat)
    ensures
        number_meant(decimal(n), 10) == n,
        decimal(n).len() > 0,
        decimal(n)[0] == '0' ==> n == 0 && decimal(n).len() == 1,
        forall|i: int| 0 <= i < decimal(n).len() ==> '0' <= #[trigger] decimal(n)[i] <= '9',
    decreases n,
{
    decimal_is_digits(n);
    digit_reads_back(n % 10);
    if n >= 10 {
        decimal_reads_back(n / 10);
        assert(decimal(n).drop_last() =~= decimal(n / 10));
        assert(decimal(n)[0] == decimal(n / 10)[0]);
    } else {
        digit_reads_back(n);
        assert(decimal(n).drop_last() =~= seq![]);
        assert(number_meant(seq![], 10) == 0);
    }
}

/// The text of an integer starts with a minus sign exactly where the integer is
/// negative, and what follows reads back as how far it is from zero.
pub proof fn integer_reads_back(n: int)
    ensures
        integer(n).len() > 0,
        integer(n)[0] == '-' <==> n < 0,
        n < 0 ==> number_meant(integer(n).skip(1), 10) == -n,
        n >= 0 ==> number_meant(integer(n), 10) == n,
        forall|i: int| 1 <= i < integer(n).len() ==> '0' <= #[trigger] integer(n)[i] <= '9',
{
    if n < 0 {
        decimal_reads_back((-n) as nat);
        assert(integer(n).skip(1) =~= decimal((-n) as nat));
    } else {
        decimal_reads_back(n as nat);
    }
}

/// Hexadecimal text reads back as the number, and holds nothing but digits in lower
/// case.
proof fn hexadecimal_reads_back(n: nat)
    ensures
        number_meant(hexadecimal(n), 16) == n,
        hexadecimal(n).len() > 0,
        forall|i: int|
            0 <= i < hexadecimal(n).len() ==> digit_meant(#[trigger] hexadecimal(n)[i]) < 16,
    decreases n,
{
    digit_reads_back(n % 16);
    if n >= 16 {
        hexadecimal_reads_back(n / 16);
        assert(hexadecimal(n).drop_last() =~= hexadecimal(n / 16));
    } else {
        digit_reads_back(n);
        assert(hexadecimal(n).drop_last() =~= seq![]);
        assert(number_meant(seq![], 16) == 0);
    }
}

/// Zeros in front change nothing about what digits mean.
proof fn zeros_mean_nothing(digits: Seq<char>, count: int, radix: nat)
    requires
        0 <= count,
    ensures
        number_meant(zeros(count) + digits, radix) == number_meant(digits, radix),
    decreases digits.len(), count,
{
    let all = zeros(count) + digits;
    if digits.len() > 0 {
        assert(all.drop_last() =~= zeros(count) + digits.drop_last());
        zeros_mean_nothing(digits.drop_last(), count, radix);
    } else if count > 0 {
        assert(all.drop_last() =~= zeros(count - 1) + digits);
        zeros_mean_nothing(digits, count - 1, radix);
        assert(0 * radix == 0) by (nonlinear_arith);
    } else {
        assert(all =~= digits);
    }
}

/// A number below a power of sixteen takes at most as many digits as the power.
proof fn hexadecimal_length_within(n: nat, width: nat, bound: nat)
    requires
        width > 0,
        n < bound,
        bound == vstd::arithmetic::power::pow(16, width),
    ensures
        hexadecimal(n).len() <= width,
    decreases width,
{
    if n >= 16 {
        vstd::arithmetic::power::lemma_pow1(16);
        assert(width > 1);
        let rest = vstd::arithmetic::power::pow(16, (width - 1) as nat);
        reveal(vstd::arithmetic::power::pow);
        assert(bound == 16 * rest);
        hexadecimal_length_within(n / 16, (width - 1) as nat, rest as nat);
    }
}

/// A padded number reads back as the number, and is as wide as it was asked to be
/// unless it has more digits than that.
pub proof fn padded_hexadecimal_reads_back(n: nat, width: nat)
    ensures
        number_meant(padded_hexadecimal(n, width as int), 16) == n,
        padded_hexadecimal(n, width as int).len() >= width,
        width > 0 && n < vstd::arithmetic::power::pow(16, width) ==> padded_hexadecimal(
            n,
            width as int,
        ).len() == width,
{
    let digits = hexadecimal(n);
    hexadecimal_reads_back(n);
    if width as int - digits.len() >= 0 {
        zeros_mean_nothing(digits, width - digits.len(), 16);
    } else {
        assert(zeros(width - digits.len()) + digits =~= digits);
    }
    if width > 0 && n < vstd::arithmetic::power::pow(16, width) {
        hexadecimal_length_within(n, width, vstd::arithmetic::power::pow(16, width) as nat);
    }
}

/// Bytes are spelled in order, two digits in lower case for each: the digits at
/// twice a place mean the byte at that place.
pub proof fn bytes_digits_read_back(bytes: Seq<u8>, index: int)
    requires
        0 <= index < bytes.len(),
    ensures
        bytes_digits(bytes).len() == 2 * bytes.len(),
        digit_meant(bytes_digits(bytes)[2 * index]) < 16,
        digit_meant(bytes_digits(bytes)[2 * index + 1]) < 16,
        16 * digit_meant(bytes_digits(bytes)[2 * index]) + digit_meant(
            bytes_digits(bytes)[2 * index + 1],
        ) == bytes[index],
    decreases bytes.len(),
{
    let front = bytes.drop_last();
    bytes_digits_length(bytes);
    bytes_digits_length(front);
    if index < front.len() {
        bytes_digits_read_back(front, index);
        assert(bytes_digits(bytes)[2 * index] == bytes_digits(front)[2 * index]);
        assert(bytes_digits(bytes)[2 * index + 1] == bytes_digits(front)[2 * index + 1]);
    } else {
        byte_digits_read_back(bytes.last());
        assert(bytes_digits(bytes)[2 * index] == byte_digits(bytes.last())[0]);
        assert(bytes_digits(bytes)[2 * index + 1] == byte_digits(bytes.last())[1]);
    }
}

/// The two digits of a byte mean the byte.
pub proof fn byte_digits_read_back(byte: u8)
    ensures
        byte_digits(byte).len() == 2,
        digit_meant(byte_digits(byte)[0]) < 16,
        digit_meant(byte_digits(byte)[1]) < 16,
        16 * digit_meant(byte_digits(byte)[0]) + digit_meant(byte_digits(byte)[1]) == byte,
{
    digit_reads_back((byte / 16) as nat);
    digit_reads_back((byte % 16) as nat);
}

} // verus!
