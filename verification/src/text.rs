//! Numbers written out as text, for messages and directory names.
use vstd::prelude::*;

verus! {

/// The digit that stands for `d`, up to fifteen.
pub open spec fn digit_char(d: int) -> char {
    seq!['0', '1', '2', '3', '4', '5', '6', '7', '8', '9', 'a', 'b', 'c', 'd', 'e', 'f'][d]
}

/// `n` in decimal, without leading zeros.
pub open spec fn decimal(n: nat) -> Seq<char>
    decreases n,
{
    if n < 10 {
        seq![digit_char(n as int)]
    } else {
        decimal(n / 10).push(digit_char((n % 10) as int))
    }
}

/// The last `width` hexadecimal digits of `n`, zeros included.
pub open spec fn padded_hex(n: nat, width: nat) -> Seq<char>
    decreases width,
{
    if width == 0 {
        Seq::empty()
    } else {
        padded_hex(n / 16, (width - 1) as nat).push(digit_char((n % 16) as int))
    }
}

fn digit(d: u64) -> (s: &'static str)
    requires
        d < 16,
    ensures
        s@ == seq![digit_char(d as int)],
{
    proof {
        reveal_strlit("0");
        reveal_strlit("1");
        reveal_strlit("2");
        reveal_strlit("3");
        reveal_strlit("4");
        reveal_strlit("5");
        reveal_strlit("6");
        reveal_strlit("7");
        reveal_strlit("8");
        reveal_strlit("9");
        reveal_strlit("a");
        reveal_strlit("b");
        reveal_strlit("c");
        reveal_strlit("d");
        reveal_strlit("e");
        reveal_strlit("f");
    }
    let s = match d {
        0 => "0",
        1 => "1",
        2 => "2",
        3 => "3",
        4 => "4",
        5 => "5",
        6 => "6",
        7 => "7",
        8 => "8",
        9 => "9",
        10 => "a",
        11 => "b",
        12 => "c",
        13 => "d",
        14 => "e",
        _ => "f",
    };
    assert(s@ =~= seq![digit_char(d as int)]);
    s
}

/// Writes a number in decimal.
pub fn decimal_text(n: u64) -> (s: String)
    ensures
        s@ == decimal(n as nat),
    decreases n,
{
    if n < 10 {
        let s = String::from_str(digit(n));
        s
    } else {
        let mut s = decimal_text(n / 10);
        s.append(digit(n % 10));
        assert(s@ =~= decimal(n as nat));
        s
    }
}

/// Writes the last `width` hexadecimal digits of a number.
pub fn padded_hex_text(n: u64, width: usize) -> (s: String)
    ensures
        s@ == padded_hex(n as nat, width as nat),
    decreases width,
{
    if width == 0 {
        String::new()
    } else {
        let mut s = padded_hex_text(n / 16, width - 1);
        s.append(digit(n % 16));
        assert(s@ =~= padded_hex(n as nat, width as nat));
        s
    }
}

/// The number that a digit stands for, up to fifteen.
pub open spec fn digit_value(c: char) -> int {
    if '0' <= c <= '9' {
        c as int - '0' as int
    } else if 'a' <= c <= 'f' {
        c as int - 'a' as int + 10
    } else {
        -1
    }
}

/// The number that digits stand for in a base.
pub open spec fn text_value(text: Seq<char>, base: int) -> int
    decreases text.len(),
{
    if text.len() == 0 {
        0
    } else {
        text_value(text.drop_last(), base) * base + digit_value(text.last())
    }
}

proof fn lemma_digit(d: int)
    requires
        0 <= d < 16,
    ensures
        digit_value(digit_char(d)) == d,
{
    let digits = seq![
        '0', '1', '2', '3', '4', '5', '6', '7', '8', '9', 'a', 'b', 'c', 'd', 'e', 'f',
    ];
    assert(digit_char(d) == digits[d]);
}

/// A number in decimal reads as that number, in decimal digits, and does not start with a zero unless
/// it is zero.
pub proof fn lemma_decimal_reads_back(n: nat)
    ensures
        text_value(decimal(n), 10) == n,
        decimal(n).len() >= 1,
        n >= 1 ==> decimal(n)[0] != '0',
        forall|i: int| 0 <= i < decimal(n).len() ==> 0 <= digit_value(#[trigger] decimal(n)[i]) < 10,
    decreases n,
{
    lemma_digit((n % 10) as int);
    if n < 10 {
        lemma_digit(n as int);
        assert(decimal(n).drop_last() =~= Seq::empty());
        assert(text_value(Seq::empty(), 10) == 0);
    } else {
        lemma_decimal_reads_back(n / 10);
        assert(decimal(n).drop_last() =~= decimal(n / 10));
    }
}

/// The last hexadecimal digits of a number read as what is left of it modulo the power of sixteen.
pub proof fn lemma_padded_hex_reads_back(n: nat, width: nat)
    ensures
        padded_hex(n, width).len() == width,
        0 <= text_value(padded_hex(n, width), 16) <= n,
        (n - text_value(padded_hex(n, width), 16)) % (vstd::arithmetic::power::pow(16, width))
            == 0,
        text_value(padded_hex(n, width), 16) < vstd::arithmetic::power::pow(16, width),
    decreases width,
{
    vstd::arithmetic::power::lemma_pow0(16);
    if width == 0 {
        assert(text_value(Seq::<char>::empty(), 16) == 0);
        assert(n as int % 1 == 0);
    } else {
        let shorter = padded_hex(n / 16, (width - 1) as nat);
        let power = vstd::arithmetic::power::pow(16, (width - 1) as nat);
        lemma_padded_hex_reads_back(n / 16, (width - 1) as nat);
        lemma_digit((n % 16) as int);
        assert(padded_hex(n, width).drop_last() =~= shorter);
        let value = text_value(shorter, 16);
        let whole = text_value(padded_hex(n, width), 16);
        assert(whole == value * 16 + n % 16);
        reveal(vstd::arithmetic::power::pow);
        assert(vstd::arithmetic::power::pow(16, width) == 16 * power);
        vstd::arithmetic::power::lemma_pow_positive(16, (width - 1) as nat);
        let rest = n / 16 - value;
        assert(n - whole == 16 * rest);
        vstd::arithmetic::div_mod::lemma_fundamental_div_mod(rest, power);
        let k = rest / power;
        assert(rest == power * k);
        assert(16 * rest == (16 * power) * k) by (nonlinear_arith)
            requires
                rest == power * k,
        ;
        vstd::arithmetic::div_mod::lemma_mod_multiples_basic(k, 16 * power);
        assert((16 * power) * k == k * (16 * power)) by (nonlinear_arith);
    }
}

} // verus!
