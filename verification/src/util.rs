//! Small shared utilities.

use vstd::prelude::*;

verus! {

/// The lower-case hexadecimal digit for a number below 16.
pub open spec fn hex_digit(v: int) -> char {
    if v < 10 {
        (0x30 + v) as char
    } else {
        (0x61 + v - 10) as char
    }
}

/// The two digits of a byte.
pub open spec fn byte_digits(b: u8) -> Seq<char> {
    seq![hex_digit(b as int / 16), hex_digit(b as int % 16)]
}

/// The bytes in hexadecimal, two digits each.
pub open spec fn hex_text(bytes: Seq<u8>) -> Seq<char>
    decreases bytes.len(),
{
    if bytes.len() == 0 {
        Seq::empty()
    } else {
        hex_text(bytes.drop_last()) + byte_digits(bytes.last())
    }
}

/// The lowest `width` digits of a number in hexadecimal.
pub open spec fn low_hex(n: nat, width: nat) -> Seq<char>
    decreases width,
{
    if width == 0 {
        Seq::empty()
    } else {
        low_hex(n / 16, (width - 1) as nat).push(hex_digit(n as int % 16))
    }
}

fn digit_char(v: u8) -> (r: char)
    requires
        v < 16,
    ensures
        r == hex_digit(v as int),
{
    if v < 10 {
        (0x30 + v) as char
    } else {
        (0x61 + (v - 10)) as char
    }
}

/// The bytes in hexadecimal, two digits each.
pub fn hex_of(bytes: &[u8]) -> (r: String)
    ensures
        r@ == hex_text(bytes@),
{
    let n: usize = bytes.len();
    let mut r: String = String::new();
    let mut i: usize = 0;
    assert(r@ == hex_text(bytes@.take(0)));
    while i < n
        invariant
            n == bytes@.len(),
            i <= n,
            r@ == hex_text(bytes@.take(i as int)),
        decreases n - i,
    {
        let ghost before = r@;
        let b: u8 = bytes[i];
        r.push(digit_char(b / 16));
        r.push(digit_char(b % 16));
        assert(bytes@.take(i + 1).drop_last() == bytes@.take(i as int));
        assert(r@ == before + byte_digits(b));
        i = i + 1;
    }
    assert(bytes@.take(n as int) == bytes@);
    r
}

fn hex_number(n: u64, width: usize) -> (r: String)
    ensures
        r@ == low_hex(n as nat, width as nat),
    decreases width,
{
    if width == 0 {
        String::new()
    } else {
        let mut r: String = hex_number(n / 16, width - 1);
        r.push(digit_char((n % 16) as u8));
        r
    }
}

/// How many random bytes make up a name of `byte_len` bytes: eight at most.
pub open spec fn name_bytes(byte_len: nat) -> nat {
    if byte_len < 8 {
        byte_len
    } else {
        8
    }
}

/// Short hex string for temp file names and bash output logs, from random
/// bytes where there are any, and otherwise from the time and a counter.
pub fn random_hex(byte_len: usize, entropy: Option<&[u8]>, nanos: u64, counter: u64) -> (r: String)
    requires
        entropy matches Some(bytes) ==> bytes@.len() == name_bytes(byte_len as nat),
    ensures
        match entropy {
            Some(bytes) => r@ == hex_text(bytes@),
            None => r@ == low_hex(
                (nanos ^ counter.wrapping_mul(0x9E37_79B9_7F4A_7C15)) as nat,
                2 * name_bytes(byte_len as nat),
            ),
        },
        r@.len() == 2 * name_bytes(byte_len as nat),
        is_hex(r@),
{
    let len: usize = if byte_len < 8 {
        byte_len
    } else {
        8
    };
    proof {
        low_hex_is_hex(
            (nanos ^ counter.wrapping_mul(0x9E37_79B9_7F4A_7C15)) as nat,
            2 * name_bytes(byte_len as nat),
        );
        if entropy is Some {
            hex_text_is_hex(entropy->Some_0@);
        }
    }
    match entropy {
        Some(bytes) => hex_of(bytes),
        None => hex_number(nanos ^ counter.wrapping_mul(0x9E37_79B9_7F4A_7C15), len * 2),
    }
}

/// Whether a text holds nothing but lower-case hexadecimal digits.
pub open spec fn is_hex(s: Seq<char>) -> bool {
    forall|i: int| 0 <= i < s.len() ==> '0' <= #[trigger] s[i] <= '9' || 'a' <= s[i] <= 'f'
}

/// A number that is cut to a width has that many digits, all of them lower-case
/// hexadecimal.
pub proof fn low_hex_is_hex(n: nat, width: nat)
    ensures
        low_hex(n, width).len() == width,
        is_hex(low_hex(n, width)),
    decreases width,
{
    if width > 0 {
        low_hex_is_hex(n / 16, (width - 1) as nat);
    }
}

/// Each byte takes two digits, all of them lower-case hexadecimal.
pub proof fn hex_text_is_hex(bytes: Seq<u8>)
    ensures
        hex_text(bytes).len() == 2 * bytes.len(),
        is_hex(hex_text(bytes)),
    decreases bytes.len(),
{
    if bytes.len() > 0 {
        hex_text_is_hex(bytes.drop_last());
    }
}

/// Different random bytes give different names.
pub proof fn hex_names_differ(a: Seq<u8>, b: Seq<u8>)
    requires
        a != b,
    ensures
        hex_text(a) != hex_text(b),
    decreases a.len(),
{
    hex_text_is_hex(a);
    hex_text_is_hex(b);
    if a.len() == b.len() && a.len() > 0 {
        let x = hex_text(a);
        let y = hex_text(b);
        let n = x.len();
        assert(a == a.drop_last().push(a.last()));
        assert(b == b.drop_last().push(b.last()));
        assert(x.subrange(0, n - 2) == hex_text(a.drop_last()));
        assert(y.subrange(0, n - 2) == hex_text(b.drop_last()));
        if a.drop_last() != b.drop_last() {
            hex_names_differ(a.drop_last(), b.drop_last());
        } else {
            assert(a.last() != b.last());
            assert(x[n - 2] == hex_digit(a.last() as int / 16));
            assert(x[n - 1] == hex_digit(a.last() as int % 16));
            assert(y[n - 2] == hex_digit(b.last() as int / 16));
            assert(y[n - 1] == hex_digit(b.last() as int % 16));
        }
    } else if a.len() == 0 {
        assert(b.len() > 0 || a == b);
    }
}

/// The value of a lower-case hexadecimal digit.
pub open spec fn digit_value(c: char) -> int {
    if c as int <= '9' as int {
        c as int - '0' as int
    } else {
        c as int - 'a' as int + 10
    }
}

/// The number that hexadecimal digits stand for.
pub open spec fn hex_value(s: Seq<char>) -> int
    decreases s.len(),
{
    if s.len() == 0 {
        0
    } else {
        16 * hex_value(s.drop_last()) + digit_value(s.last())
    }
}

/// Sixteen to the power of `n`.
pub open spec fn pow16(n: nat) -> int
    decreases n,
{
    if n == 0 {
        1
    } else {
        16 * pow16((n - 1) as nat)
    }
}

proof fn lemma_pow16(n: nat)
    ensures
        pow16(n) > 0,
    decreases n,
{
    if n > 0 {
        lemma_pow16((n - 1) as nat);
    }
}

/// The lowest digits of a number read back as the number, as far as they go.
pub proof fn low_digits_read_back(n: nat, width: nat)
    ensures
        hex_value(low_hex(n, width)) == n as int % pow16(width),
    decreases width,
{
    if width > 0 {
        let w = (width - 1) as nat;
        low_digits_read_back(n / 16, w);
        lemma_pow16(w);
        let all = low_hex(n, width);
        assert(all.drop_last() == low_hex(n / 16, w));
        assert(all.last() == hex_digit(n as int % 16));
        assert(digit_value(hex_digit(n as int % 16)) == n as int % 16);
        vstd::arithmetic::div_mod::lemma_mod_breakdown(n as int, 16, pow16(w));
        assert((n / 16) as int == n as int / 16);
    }
}

/// The two digits of each byte read back as the byte.
pub proof fn bytes_read_back(bytes: Seq<u8>, i: int)
    requires
        0 <= i < bytes.len(),
    ensures
        hex_text(bytes).len() == 2 * bytes.len(),
        hex_value(hex_text(bytes).subrange(2 * i, 2 * i + 2)) == bytes[i],
    decreases bytes.len(),
{
    let front = bytes.drop_last();
    let all = hex_text(bytes);
    hex_text_is_hex(bytes);
    hex_text_is_hex(front);
    if i < front.len() {
        bytes_read_back(front, i);
        assert(all.subrange(2 * i, 2 * i + 2) == hex_text(front).subrange(2 * i, 2 * i + 2));
    } else {
        let b = bytes[i] as int;
        let pair = all.subrange(2 * i, 2 * i + 2);
        assert(pair == byte_digits(bytes[i]));
        assert(pair.last() == hex_digit(b % 16));
        let one = pair.drop_last();
        assert(one == seq![hex_digit(b / 16)]);
        assert(one.last() == hex_digit(b / 16));
        assert(one.drop_last() == Seq::<char>::empty());
        assert(hex_value(Seq::<char>::empty()) == 0);
        assert(digit_value(hex_digit(b / 16)) == b / 16);
        assert(digit_value(hex_digit(b % 16)) == b % 16);
        assert(hex_value(one) == b / 16);
    }
}

/// A name is made of as many random bytes as it is asked for, up to eight.
pub proof fn names_take_up_to_eight_bytes(byte_len: nat)
    ensures
        byte_len <= 8 ==> name_bytes(byte_len) == byte_len,
        byte_len > 8 ==> name_bytes(byte_len) == 8,
{
}

} // verus!
