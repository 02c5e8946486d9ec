//! Rendering numbers as text, built from string pieces.
use vstd::prelude::*;

verus! {

/// The decimal digit character for `d < 10`.
pub open spec fn digit_char(d: nat) -> char {
    if d == 0 { '0' }
    else if d == 1 { '1' }
    else if d == 2 { '2' }
    else if d == 3 { '3' }
    else if d == 4 { '4' }
    else if d == 5 { '5' }
    else if d == 6 { '6' }
    else if d == 7 { '7' }
    else if d == 8 { '8' }
    else { '9' }
}

/// The lowercase hexadecimal digit character for `d < 16`.
pub open spec fn hex_char(d: nat) -> char {
    if d < 10 { digit_char(d) }
    else if d == 10 { 'a' }
    else if d == 11 { 'b' }
    else if d == 12 { 'c' }
    else if d == 13 { 'd' }
    else if d == 14 { 'e' }
    else { 'f' }
}

/// The decimal representation of `n`, without leading zeros (as `{}` prints it).
pub open spec fn decimal(n: nat) -> Seq<char>
    decreases n,
{
    if n < 10 {
        seq![digit_char(n)]
    } else {
        decimal(n / 10) + seq![digit_char(n % 10)]
    }
}

/// The lowercase hexadecimal digits of `n`, without leading zeros.
pub open spec fn hex_digits(n: nat) -> Seq<char>
    decreases n,
{
    if n < 16 {
        seq![hex_char(n)]
    } else {
        hex_digits(n / 16) + seq![hex_char(n % 16)]
    }
}

/// `n` in the alternate hexadecimal form (as `{:#x}` prints it): `0x` and
/// the lowercase digits.
pub open spec fn hex_alt(n: nat) -> Seq<char> {
    "0x"@ + hex_digits(n)
}

fn hex_digit_str(d: usize) -> (s: &'static str)
    requires
        d < 16,
    ensures
        s@ == seq![hex_char(d as nat)],
{
    proof {
        reveal_strlit("0");
        reveal_strlit("1");
        reveal_strlit("2");
        reveal_strlit("3");
        reveal_strlit("4");
        reveal_strlit("5");
        reveal_strlit("6");
        reveal_strlit("7");
        reveal_strlit("8");
        reveal_strlit("9");
        reveal_strlit("a");
        reveal_strlit("b");
        reveal_strlit("c");
        reveal_strlit("d");
        reveal_strlit("e");
        reveal_strlit("f");
    }
    if d == 0 { "0" }
    else if d == 1 { "1" }
    else if d == 2 { "2" }
    else if d == 3 { "3" }
    else if d == 4 { "4" }
    else if d == 5 { "5" }
    else if d == 6 { "6" }
    else if d == 7 { "7" }
    else if d == 8 { "8" }
    else if d == 9 { "9" }
    else if d == 10 { "a" }
    else if d == 11 { "b" }
    else if d == 12 { "c" }
    else if d == 13 { "d" }
    else if d == 14 { "e" }
    else { "f" }
}

/// Append the decimal representation of `n` to `out`.
pub fn push_decimal(out: &mut String, n: u64)
    ensures
        final(out)@ == old(out)@ + decimal(n as nat),
    decreases n,
{
    if n >= 10 {
        push_decimal(out, n / 10);
    }
    let d = (n % 10) as usize;
    out.append(hex_digit_str(d));
    proof {
        assert(old(out)@ + decimal(n as nat) =~= old(out)@ + (if n >= 10 {
            decimal((n / 10) as nat)
        } else {
            Seq::empty()
        }) + seq![digit_char((n % 10) as nat)]);
    }
}

fn push_hex_digits(out: &mut String, n: u64)
    ensures
        final(out)@ == old(out)@ + hex_digits(n as nat),
    decreases n,
{
    if n >= 16 {
        push_hex_digits(out, n / 16);
    }
    let d = (n % 16) as usize;
    out.append(hex_digit_str(d));
    proof {
        assert(old(out)@ + hex_digits(n as nat) =~= old(out)@ + (if n >= 16 {
            hex_digits((n / 16) as nat)
        } else {
            Seq::empty()
        }) + seq![hex_char((n % 16) as nat)]);
    }
}

/// Append `n` in the alternate hexadecimal form (`0x...`) to `out`.
pub fn push_hex(out: &mut String, n: u64)
    ensures
        final(out)@ == old(out)@ + hex_alt(n as nat),
{
    out.append("0x");
    push_hex_digits(out, n);
    proof {
        assert(old(out)@ + hex_alt(n as nat) =~= old(out)@ + "0x"@ + hex_digits(n as nat));
    }
}

/// The decimal representation of `n` as a new string.
pub fn decimal_string(n: u64) -> (s: String)
    ensures
        s@ == decimal(n as nat),
{
    let mut s = String::new();
    push_decimal(&mut s, n);
    proof {
        assert(s@ =~= decimal(n as nat));
    }
    s
}

/// `s` followed by spaces up to `width` characters (as `{:<width}` prints it).
pub open spec fn pad_right(s: Seq<char>, width: nat) -> Seq<char> {
    if s.len() < width {
        s + Seq::new((width - s.len()) as nat, |i: int| ' ')
    } else {
        s
    }
}

/// Ten to the power `j`.
pub open spec fn pow10(j: nat) -> nat
    decreases j,
{
    if j == 0 { 1 } else { 10 * pow10((j - 1) as nat) }
}

/// A number below `10^j` (with `j >= 1`) has at most `j` decimal digits.
proof fn lemma_decimal_len_bound(n: nat, j: nat)
    requires
        j >= 1,
        n < pow10(j),
    ensures
        decimal(n).len() <= j,
    decreases j,
{
    if n >= 10 {
        assert(j >= 2) by {
            if j == 1 {
                assert(pow10(0) == 1);
                assert(pow10(1) == 10);
            }
        }
        assert(n / 10 < pow10((j - 1) as nat));
        lemma_decimal_len_bound(n / 10, (j - 1) as nat);
    }
}

/// The number of decimal digits of `n`.
pub fn decimal_len(n: u64) -> (k: usize)
    ensures
        k == decimal(n as nat).len(),
        k <= 20,
    decreases n,
{
    proof {
        assert(pow10(20) == 100000000000000000000nat) by {
            reveal_with_fuel(pow10, 21);
        }
        lemma_decimal_len_bound(n as nat, 20);
        if n >= 10 {
            lemma_decimal_len_bound((n / 10) as nat, 20);
        }
    }
    if n < 10 {
        1
    } else {
        decimal_len(n / 10) + 1
    }
}

/// Append spaces to `out` so that the `len` characters last appended reach `width`.
pub fn push_padding(out: &mut String, len: usize, width: usize)
    ensures
        final(out)@ == old(out)@ + (if len < width {
            Seq::new((width - len) as nat, |i: int| ' ')
        } else {
            Seq::empty()
        }),
{
    let mut k = len;
    while k < width
        invariant
            len <= k || width <= k,
            k < width ==> len <= k,
            len < width ==> k <= width,
            out@ == old(out)@ + (if len < k && len < width {
                Seq::new((k - len) as nat, |i: int| ' ')
            } else {
                Seq::empty()
            }),
        decreases width - k,
    {
        proof {
            reveal_strlit(" ");
        }
        out.append(" ");
        k = k + 1;
        proof {
            assert(out@ =~= old(out)@ + Seq::new((k - len) as nat, |i: int| ' '));
        }
    }
    proof {
        if len < width {
            assert(k == width);
        }
    }
}

/// Append the decimal representation of `n`, padded with spaces to `width`.
pub fn push_decimal_padded(out: &mut String, n: u64, width: usize)
    ensures
        final(out)@ == old(out)@ + pad_right(decimal(n as nat), width as nat),
{
    push_decimal(out, n);
    let len = decimal_len(n);
    push_padding(out, len, width);
    proof {
        assert(final(out)@ =~= old(out)@ + pad_right(decimal(n as nat), width as nat));
    }
}

} // verus!
