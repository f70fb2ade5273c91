//! Numbers as text, and comparisons of texts and bytes.

use vstd::prelude::*;
use vstd::string::*;

verus! {

/// The digit that stands for `d`, which is below sixteen.
pub open spec fn digit(d: nat) -> char {
    if d == 0 {
        '0'
    } else if d == 1 {
        '1'
    } else if d == 2 {
        '2'
    } else if d == 3 {
        '3'
    } else if d == 4 {
        '4'
    } else if d == 5 {
        '5'
    } else if d == 6 {
        '6'
    } else if d == 7 {
        '7'
    } else if d == 8 {
        '8'
    } else if d == 9 {
        '9'
    } else if d == 10 {
        'a'
    } else if d == 11 {
        'b'
    } else if d == 12 {
        'c'
    } else if d == 13 {
        'd'
    } else if d == 14 {
        'e'
    } else {
        'f'
    }
}

/// `n` in base `radix`, without leading zeros.
pub open spec fn numeral(n: nat, radix: nat) -> Seq<char>
    decreases n,
{
    if radix < 2 || n < radix {
        seq![digit(n)]
    } else {
        proof {
            vstd::arithmetic::div_mod::lemma_div_decreases(n as int, radix as int);
        }
        numeral(n / radix, radix).push(digit(n % radix))
    }
}

/// `n` in hexadecimal, without prefix or leading zeros.
pub open spec fn hex(n: nat) -> Seq<char> {
    numeral(n, 16)
}

/// `n` in decimal.
pub open spec fn decimal(n: nat) -> Seq<char> {
    numeral(n, 10)
}

/// The last `width` hexadecimal digits of `n`.
pub open spec fn hex_padded(n: nat, width: nat) -> Seq<char>
    decreases width,
{
    if width == 0 {
        seq![]
    } else {
        hex_padded(n / 16, (width - 1) as nat).push(digit(n % 16))
    }
}

fn digit_text(d: u32) -> (res: &'static str)
    requires
        d < 16,
    ensures
        res@ == seq![digit(d as nat)],
{
    proof {
        reveal_strlit("0");
        reveal_strlit("1");
        reveal_strlit("2");
        reveal_strlit("3");
        reveal_strlit("4");
        reveal_strlit("5");
        reveal_strlit("6");
        reveal_strlit("7");
        reveal_strlit("8");
        reveal_strlit("9");
        reveal_strlit("a");
        reveal_strlit("b");
        reveal_strlit("c");
        reveal_strlit("d");
        reveal_strlit("e");
        reveal_strlit("f");
    }
    match d {
        0 => "0",
        1 => "1",
        2 => "2",
        3 => "3",
        4 => "4",
        5 => "5",
        6 => "6",
        7 => "7",
        8 => "8",
        9 => "9",
        10 => "a",
        11 => "b",
        12 => "c",
        13 => "d",
        14 => "e",
        _ => "f",
    }
}

fn push_numeral(w: &mut String, n: u32, radix: u32)
    requires
        2 <= radix <= 16,
    ensures
        final(w)@ == old(w)@ + numeral(n as nat, radix as nat),
    decreases n,
{
    if n >= radix {
        proof {
            vstd::arithmetic::div_mod::lemma_div_decreases(n as int, radix as int);
        }
        push_numeral(w, n / radix, radix);
    }
    w.append(digit_text(n % radix));
    proof {
        if n >= radix {
            assert(old(w)@ + numeral((n / radix) as nat, radix as nat) + seq![
                digit((n % radix) as nat),
            ] =~= old(w)@ + numeral(n as nat, radix as nat));
        } else {
            vstd::arithmetic::div_mod::lemma_small_mod(n as nat, radix as nat);
        }
    }
}

/// Appends `n` in hexadecimal, as `{:x}` does.
pub fn push_hex(w: &mut String, n: u32)
    ensures
        final(w)@ == old(w)@ + hex(n as nat),
{
    push_numeral(w, n, 16);
}

/// Appends `n` in decimal, as `{}` does.
pub fn push_decimal(w: &mut String, n: u32)
    ensures
        final(w)@ == old(w)@ + decimal(n as nat),
{
    push_numeral(w, n, 10);
}

fn push_hex_padded(w: &mut String, n: u32, width: u32)
    ensures
        final(w)@ == old(w)@ + hex_padded(n as nat, width as nat),
    decreases width,
{
    if width > 0 {
        push_hex_padded(w, n / 16, width - 1);
        w.append(digit_text(n % 16));
        assert(old(w)@ + hex_padded((n / 16) as nat, (width - 1) as nat) + seq![
            digit((n % 16) as nat),
        ] =~= old(w)@ + hex_padded(n as nat, width as nat));
    }
}

/// Appends `n` as eight hexadecimal digits, as `{:08x}` does.
pub fn push_hex8(w: &mut String, n: u32)
    ensures
        final(w)@ == old(w)@ + hex_padded(n as nat, 8),
{
    push_hex_padded(w, n, 8);
}

/// Whether two runs of bytes are the same.
pub fn same_bytes(x: &[u8], y: &[u8]) -> (res: bool)
    ensures
        res == (x@ == y@),
{
    if x.len() != y.len() {
        return false;
    }
    let mut i: usize = 0;
    while i < x.len()
        invariant
            i <= x.len(),
            x.len() == y.len(),
            forall|j: int| 0 <= j < i ==> x@[j] == y@[j],
        decreases x.len() - i,
    {
        if x[i] != y[i] {
            return false;
        }
        i += 1;
    }
    assert(x@ =~= y@);
    true
}

/// Whether two texts are the same.
pub fn same_text(a: &str, b: &str) -> (res: bool)
    ensures
        res == (a@ == b@),
{
    let x = a.as_bytes();
    let y = b.as_bytes();
    proof {
        vstd::utf8::encode_utf8_decode_utf8(a@);
        vstd::utf8::encode_utf8_decode_utf8(b@);
    }
    same_bytes(x, y)
}

/// Whether `s` begins with `prefix`.
pub fn begins_with(s: &str, prefix: &str) -> (res: bool)
    ensures
        res == prefix@.is_prefix_of(s@),
{
    let n: usize = prefix.unicode_len();
    if s.unicode_len() < n {
        return false;
    }
    let mut i: usize = 0;
    while i < n
        invariant
            i <= n,
            n == prefix@.len(),
            n <= s@.len(),
            forall|j: int| 0 <= j < i ==> prefix@[j] == s@[j],
        decreases n - i,
    {
        if prefix.get_char(i) != s.get_char(i) {
            assert(prefix@[i as int] != s@.subrange(0, n as int)[i as int]);
            return false;
        }
        i += 1;
    }
    assert(prefix@ =~= s@.subrange(0, n as int));
    true
}

spec fn sixteen_to(width: nat) -> nat
    decreases width,
{
    if width == 0 {
        1
    } else {
        16 * sixteen_to((width - 1) as nat)
    }
}

proof fn lemma_hex_padded_injective(m: nat, n: nat, width: nat)
    requires
        m < sixteen_to(width),
        n < sixteen_to(width),
        hex_padded(m, width) == hex_padded(n, width),
    ensures
        m == n,
    decreases width,
{
    if width > 0 {
        let a = hex_padded(m / 16, (width - 1) as nat);
        let b = hex_padded(n / 16, (width - 1) as nat);
        assert(a =~= hex_padded(m, width).drop_last());
        assert(b =~= hex_padded(n, width).drop_last());
        assert(hex_padded(m, width).last() == digit(m % 16));
        assert(hex_padded(n, width).last() == digit(n % 16));
        lemma_hex_padded_injective(m / 16, n / 16, (width - 1) as nat);
    }
}

/// Two addresses written as eight hexadecimal digits read the same only if they
/// are the same address.
pub proof fn law_hex8_injective(m: u32, n: u32)
    requires
        hex_padded(m as nat, 8) == hex_padded(n as nat, 8),
    ensures
        m == n,
{
    reveal_with_fuel(sixteen_to, 9);
    lemma_hex_padded_injective(m as nat, n as nat, 8);
}

} // verus!
