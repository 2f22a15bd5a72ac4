//! Rendering and parsing of integers in the textual forms the generated
//! code uses: lowercase `0x`-prefixed hexadecimal, zero-padded uppercase
//! hexadecimal, and decimal.

use vstd::prelude::*;
use vstd::string::StringExecFns;

verus! {

/// The lowercase hexadecimal digit for `d`.
pub open spec fn hex_digit_lower(d: nat) -> char {
    if d == 0 {
        '0'
    } else if d == 1 {
        '1'
    } else if d == 2 {
        '2'
    } else if d == 3 {
        '3'
    } else if d == 4 {
        '4'
    } else if d == 5 {
        '5'
    } else if d == 6 {
        '6'
    } else if d == 7 {
        '7'
    } else if d == 8 {
        '8'
    } else if d == 9 {
        '9'
    } else if d == 10 {
        'a'
    } else if d == 11 {
        'b'
    } else if d == 12 {
        'c'
    } else if d == 13 {
        'd'
    } else if d == 14 {
        'e'
    } else {
        'f'
    }
}

/// The uppercase hexadecimal digit for `d`.
pub open spec fn hex_digit_upper(d: nat) -> char {
    if d == 10 {
        'A'
    } else if d == 11 {
        'B'
    } else if d == 12 {
        'C'
    } else if d == 13 {
        'D'
    } else if d == 14 {
        'E'
    } else if d == 15 {
        'F'
    } else {
        hex_digit_lower(d)
    }
}

/// Lowercase hexadecimal digits of `n`, most significant first; empty for 0.
pub open spec fn hex_digits_lower(n: nat) -> Seq<char>
    decreases n,
{
    if n == 0 {
        Seq::empty()
    } else {
        hex_digits_lower(n / 16) + seq![hex_digit_lower(n % 16)]
    }
}

/// Uppercase hexadecimal digits of `n`, most significant first; empty for 0.
pub open spec fn hex_digits_upper(n: nat) -> Seq<char>
    decreases n,
{
    if n == 0 {
        Seq::empty()
    } else {
        hex_digits_upper(n / 16) + seq![hex_digit_upper(n % 16)]
    }
}

/// Decimal digits of `n`, most significant first; empty for 0.
pub open spec fn dec_digits(n: nat) -> Seq<char>
    decreases n,
{
    if n == 0 {
        Seq::empty()
    } else {
        dec_digits(n / 10) + seq![hex_digit_lower(n % 10)]
    }
}

/// `n` in lowercase hexadecimal, at least one digit, no prefix.
pub open spec fn hex_lower(n: nat) -> Seq<char> {
    if n == 0 {
        seq!['0']
    } else {
        hex_digits_lower(n)
    }
}

/// `n` in lowercase hexadecimal with a `0x` prefix, as `{:#x}` renders it.
pub open spec fn hex_prefixed(n: nat) -> Seq<char> {
    seq!['0', 'x'] + hex_lower(n)
}

/// `n` in decimal, at least one digit, as `{}` renders it.
pub open spec fn decimal(n: nat) -> Seq<char> {
    if n == 0 {
        seq!['0']
    } else {
        dec_digits(n)
    }
}

/// `s` left-padded with `'0'` up to width `w`.
pub open spec fn zero_pad(s: Seq<char>, w: nat) -> Seq<char> {
    if s.len() >= w {
        s
    } else {
        Seq::new((w - s.len()) as nat, |i: int| '0') + s
    }
}

/// `n` in uppercase hexadecimal zero-padded to width `w`, as `{:0wX}`
/// renders it (longer than `w` digits when `n` needs them).
pub open spec fn hex_upper_pad(n: nat, w: nat) -> Seq<char> {
    zero_pad(hex_digits_upper(n), w)
}

/// 16 to the power `k`.
pub open spec fn pow16(k: nat) -> nat
    decreases k,
{
    if k == 0 {
        1
    } else {
        16 * pow16((k - 1) as nat)
    }
}

/// Whether `c` is a hexadecimal digit, in either case.
pub open spec fn is_hex_digit(c: char) -> bool {
    ('0' as int <= c as int && c as int <= '9' as int) || ('a' as int <= c as int && c as int
        <= 'f' as int) || ('A' as int <= c as int && c as int <= 'F' as int)
}

/// The numeric value of the hexadecimal digit `c`.
pub open spec fn hex_char_val(c: char) -> nat {
    if '0' as int <= c as int && c as int <= '9' as int {
        (c as int - '0' as int) as nat
    } else if 'a' as int <= c as int && c as int <= 'f' as int {
        (c as int - 'a' as int + 10) as nat
    } else {
        (c as int - 'A' as int + 10) as nat
    }
}

/// Whether every character of `s` is a hexadecimal digit.
pub open spec fn all_hex(s: Seq<char>) -> bool {
    forall|i: int| 0 <= i < s.len() ==> is_hex_digit(#[trigger] s[i])
}

/// The number denoted by the hexadecimal digit string `s`.
pub open spec fn hex_value(s: Seq<char>) -> nat
    decreases s.len(),
{
    if s.len() == 0 {
        0
    } else {
        hex_value(s.drop_last()) * 16 + hex_char_val(s.last())
    }
}

/// The digit string of `n` denotes `n`, contains only digits, and is no
/// longer than any width whose capacity holds `n`.
pub proof fn lemma_hex_digits_upper_value(n: nat)
    ensures
        hex_value(hex_digits_upper(n)) == n,
        all_hex(hex_digits_upper(n)),
        forall|k: nat| n < #[trigger] pow16(k) ==> hex_digits_upper(n).len() <= k,
    decreases n,
{
    if n == 0 {
        assert(hex_digits_upper(0) =~= Seq::<char>::empty());
    } else {
        lemma_hex_digits_upper_value(n / 16);
        let s = hex_digits_upper(n);
        let prefix = hex_digits_upper(n / 16);
        let d = n % 16;
        assert(s =~= prefix + seq![hex_digit_upper(d)]);
        assert(s.drop_last() =~= prefix);
        assert(s.last() == hex_digit_upper(d));
        assert(is_hex_digit(hex_digit_upper(d)) && hex_char_val(hex_digit_upper(d)) == d);
        assert(hex_value(s) == hex_value(prefix) * 16 + d);
        assert forall|k: nat| n < #[trigger] pow16(k) implies s.len() <= k by {
            if k == 0 {
                assert(pow16(0) == 1);
                assert(false);
            } else {
                assert(pow16(k) == 16 * pow16((k - 1) as nat));
                assert(n / 16 < pow16((k - 1) as nat));
            }
        }
    }
}

/// The value of a concatenation of digit strings.
pub proof fn lemma_hex_value_concat(a: Seq<char>, b: Seq<char>)
    ensures
        hex_value(a + b) == hex_value(a) * pow16(b.len()) + hex_value(b),
    decreases b.len(),
{
    if b.len() == 0 {
        assert(a + b =~= a);
        assert(pow16(0) == 1);
        assert(hex_value(a) * 1 == hex_value(a));
    } else {
        lemma_hex_value_concat(a, b.drop_last());
        assert((a + b).drop_last() =~= a + b.drop_last());
        assert((a + b).last() == b.last());
        assert(hex_value(a + b) == hex_value(a + b.drop_last()) * 16 + hex_char_val(b.last()));
        assert(pow16(b.len()) == 16 * pow16((b.len() - 1) as nat)) by {
            assert(b.len() != 0);
        }
        let x = hex_value(a);
        let p = pow16((b.len() - 1) as nat);
        assert(x * (16 * p) == (x * p) * 16) by (nonlinear_arith);
        assert(hex_value(b) == hex_value(b.drop_last()) * 16 + hex_char_val(b.last()));
        assert((x * p + hex_value(b.drop_last())) * 16 == (x * p) * 16 + hex_value(b.drop_last())
            * 16) by (nonlinear_arith);
        assert(hex_value(a + b) == (x * p + hex_value(b.drop_last())) * 16 + hex_char_val(
            b.last(),
        ));
        assert(hex_value(a + b) == x * (16 * p) + hex_value(b.drop_last()) * 16 + hex_char_val(
            b.last(),
        ));
        assert(x * pow16(b.len()) == x * (16 * p));
    }
}

/// A zero-padded uppercase rendering of `n` parses back to `n`.
pub proof fn lemma_hex_upper_pad_value(n: nat, w: nat)
    requires
        n < pow16(w),
    ensures
        hex_upper_pad(n, w).len() == w,
        all_hex(hex_upper_pad(n, w)),
        hex_value(hex_upper_pad(n, w)) == n,
{
    lemma_hex_digits_upper_value(n);
    let digits = hex_digits_upper(n);
    assert(digits.len() <= w);
    if digits.len() >= w {
        assert(hex_upper_pad(n, w) =~= digits);
    } else {
        let zeros = Seq::new((w - digits.len()) as nat, |i: int| '0');
        assert(hex_upper_pad(n, w) =~= zeros + digits);
        lemma_hex_value_zeros(zeros.len());
        assert(zeros =~= zeros_seq(zeros.len()));
        lemma_hex_value_concat(zeros, digits);
        assert(hex_value(zeros + digits) == 0 * pow16(digits.len()) + n);
    }
}

/// A run of `k` `'0'` characters.
pub open spec fn zeros_seq(k: nat) -> Seq<char> {
    Seq::new(k, |i: int| '0')
}

/// A run of zeros denotes zero and is made of digits.
pub proof fn lemma_hex_value_zeros(k: nat)
    ensures
        hex_value(zeros_seq(k)) == 0,
        all_hex(zeros_seq(k)),
    decreases k,
{
    if k > 0 {
        lemma_hex_value_zeros((k - 1) as nat);
        assert(zeros_seq(k).drop_last() =~= zeros_seq((k - 1) as nat));
        assert(zeros_seq(k).last() == '0');
        assert(hex_char_val('0') == 0);
    }
}

/// A digit string's value is below the capacity of its width.
pub proof fn lemma_hex_value_bound(s: Seq<char>)
    requires
        all_hex(s),
    ensures
        hex_value(s) < pow16(s.len()),
    decreases s.len(),
{
    if s.len() == 0 {
        assert(pow16(0) == 1);
    } else {
        assert forall|i: int| 0 <= i < s.drop_last().len() implies is_hex_digit(
            #[trigger] s.drop_last()[i],
        ) by {
            assert(s.drop_last()[i] == s[i]);
        }
        lemma_hex_value_bound(s.drop_last());
        assert(is_hex_digit(s.last()));
        assert(hex_char_val(s.last()) < 16);
        assert(pow16(s.len()) == 16 * pow16((s.len() - 1) as nat)) by {
            assert(s.len() != 0);
        }
    }
}

/// Monotonicity of `pow16`.
pub proof fn lemma_pow16_increases(a: nat, b: nat)
    requires
        a <= b,
    ensures
        pow16(a) <= pow16(b),
    decreases b,
{
    if a < b {
        lemma_pow16_increases(a, (b - 1) as nat);
        assert(pow16(b) == 16 * pow16((b - 1) as nat));
    }
}

/// The single lowercase hexadecimal digit `d` as text.
pub fn hex_digit_str_lower(d: u64) -> (r: &'static str)
    requires
        d < 16,
    ensures
        r@ == seq![hex_digit_lower(d as nat)],
{
    let r: &'static str = match d {
        0 => "0",
        1 => "1",
        2 => "2",
        3 => "3",
        4 => "4",
        5 => "5",
        6 => "6",
        7 => "7",
        8 => "8",
        9 => "9",
        10 => "a",
        11 => "b",
        12 => "c",
        13 => "d",
        14 => "e",
        _ => "f",
    };
    proof {
        reveal_strlit("0");
        reveal_strlit("1");
        reveal_strlit("2");
        reveal_strlit("3");
        reveal_strlit("4");
        reveal_strlit("5");
        reveal_strlit("6");
        reveal_strlit("7");
        reveal_strlit("8");
        reveal_strlit("9");
        reveal_strlit("a");
        reveal_strlit("b");
        reveal_strlit("c");
        reveal_strlit("d");
        reveal_strlit("e");
        reveal_strlit("f");
        assert(r@ =~= seq![hex_digit_lower(d as nat)]);
    }
    r
}

/// The single uppercase hexadecimal digit `d` as text.
pub fn hex_digit_str_upper(d: u64) -> (r: &'static str)
    requires
        d < 16,
    ensures
        r@ == seq![hex_digit_upper(d as nat)],
{
    if d < 10 {
        hex_digit_str_lower(d)
    } else {
        let r: &'static str = match d {
            10 => "A",
            11 => "B",
            12 => "C",
            13 => "D",
            14 => "E",
            _ => "F",
        };
        proof {
            reveal_strlit("A");
            reveal_strlit("B");
            reveal_strlit("C");
            reveal_strlit("D");
            reveal_strlit("E");
            reveal_strlit("F");
            assert(r@ =~= seq![hex_digit_upper(d as nat)]);
        }
        r
    }
}

/// Append the bare lowercase hexadecimal digits of `n`; nothing for 0.
pub fn push_hex_digits_lower(n: u64, out: &mut String)
    ensures
        final(out)@ == old(out)@ + hex_digits_lower(n as nat),
    decreases n,
{
    if n > 0 {
        push_hex_digits_lower(n / 16, out);
        let d = hex_digit_str_lower(n % 16);
        out.append(d);
        proof {
            assert(old(out)@ + hex_digits_lower(n as nat) =~= (old(out)@ + hex_digits_lower(
                (n / 16) as nat,
            )) + seq![hex_digit_lower((n % 16) as nat)]);
        }
    } else {
        proof {
            assert(old(out)@ + hex_digits_lower(0) =~= old(out)@);
        }
    }
}

/// Append the bare uppercase hexadecimal digits of `n`; nothing for 0.
pub fn push_hex_digits_upper(n: u64, out: &mut String)
    ensures
        final(out)@ == old(out)@ + hex_digits_upper(n as nat),
    decreases n,
{
    if n > 0 {
        push_hex_digits_upper(n / 16, out);
        let d = hex_digit_str_upper(n % 16);
        out.append(d);
        proof {
            assert(old(out)@ + hex_digits_upper(n as nat) =~= (old(out)@ + hex_digits_upper(
                (n / 16) as nat,
            )) + seq![hex_digit_upper((n % 16) as nat)]);
        }
    } else {
        proof {
            assert(old(out)@ + hex_digits_upper(0) =~= old(out)@);
        }
    }
}

/// Append `n` in lowercase hexadecimal, at least one digit.
pub fn push_hex_lower(n: u64, out: &mut String)
    ensures
        final(out)@ == old(out)@ + hex_lower(n as nat),
{
    if n == 0 {
        out.append("0");
        proof {
            reveal_strlit("0");
            assert(out@ =~= old(out)@ + hex_lower(0));
        }
    } else {
        push_hex_digits_lower(n, out);
    }
}

/// Append `n` as `{:#x}` renders it: `0x` then lowercase digits.
pub fn push_hex_prefixed(n: u64, out: &mut String)
    ensures
        final(out)@ == old(out)@ + hex_prefixed(n as nat),
{
    out.append("0x");
    push_hex_lower(n, out);
    proof {
        reveal_strlit("0x");
        assert(out@ =~= old(out)@ + hex_prefixed(n as nat));
    }
}

/// Append `n` in decimal, at least one digit.
pub fn push_decimal(n: u64, out: &mut String)
    ensures
        final(out)@ == old(out)@ + decimal(n as nat),
{
    if n == 0 {
        out.append("0");
        proof {
            reveal_strlit("0");
            assert(out@ =~= old(out)@ + decimal(0));
        }
    } else {
        push_dec_digits(n, out);
    }
}

/// Append the bare decimal digits of `n`; nothing for 0.
fn push_dec_digits(n: u64, out: &mut String)
    ensures
        final(out)@ == old(out)@ + dec_digits(n as nat),
    decreases n,
{
    if n > 0 {
        push_dec_digits(n / 10, out);
        let d = hex_digit_str_lower(n % 10);
        out.append(d);
        proof {
            assert(old(out)@ + dec_digits(n as nat) =~= (old(out)@ + dec_digits((n / 10) as nat))
                + seq![hex_digit_lower((n % 10) as nat)]);
        }
    } else {
        proof {
            assert(old(out)@ + dec_digits(0) =~= old(out)@);
        }
    }
}

/// The number of digits in the bare uppercase rendering of `n`.
fn hex_upper_digit_count(n: u64) -> (c: usize)
    ensures
        c as nat == hex_digits_upper(n as nat).len(),
        c <= 16,
    decreases n,
{
    if n == 0 {
        proof {
            assert(hex_digits_upper(0) =~= Seq::<char>::empty());
        }
        0
    } else {
        let rest = hex_upper_digit_count(n / 16);
        proof {
            reveal_with_fuel(pow16, 16);
            assert(pow16(15) == 0x1000000000000000);
            assert(((n / 16) as nat) < pow16(15));
            lemma_hex_digits_upper_value((n / 16) as nat);
            assert(hex_digits_upper((n / 16) as nat).len() <= 15);
        }
        rest + 1
    }
}

/// Append `n` as `{:0wX}` renders it: uppercase, zero-padded to `width`.
pub fn push_hex_upper_pad(n: u64, width: usize, out: &mut String)
    ensures
        final(out)@ == old(out)@ + hex_upper_pad(n as nat, width as nat),
{
    let c = hex_upper_digit_count(n);
    if c < width {
        let pad: usize = width - c;
        let mut j: usize = 0;
        while j < pad
            invariant
                out@ == old(out)@ + zeros_seq(j as nat),
                j <= pad,
            decreases pad - j,
        {
            out.append("0");
            proof {
                reveal_strlit("0");
                assert(out@ =~= old(out)@ + zeros_seq((j + 1) as nat));
            }
            j = j + 1;
        }
        push_hex_digits_upper(n, out);
        proof {
            assert(hex_upper_pad(n as nat, width as nat) =~= zeros_seq(pad as nat)
                + hex_digits_upper(n as nat));
            assert(out@ =~= old(out)@ + hex_upper_pad(n as nat, width as nat));
        }
    } else {
        push_hex_digits_upper(n, out);
        proof {
            assert(hex_upper_pad(n as nat, width as nat) =~= hex_digits_upper(n as nat));
        }
    }
}

/// Parse a whole token of up to 8 hexadecimal digits, either case.
///
/// Returns the token's value, or `None` when the token is empty or holds a
/// character that is not a hexadecimal digit.
pub fn parse_hex_u32(s: &str) -> (r: Option<u32>)
    requires
        s@.len() <= 8,
    ensures
        r == (if s@.len() > 0 && all_hex(s@) {
            Some(hex_value(s@) as u32)
        } else {
            None::<u32>
        }),
{
    let n = s.unicode_len();
    if n == 0 {
        return None;
    }
    let mut acc: u64 = 0;
    let mut i: usize = 0;
    while i < n
        invariant
            n == s@.len(),
            n <= 8,
            i <= n,
            all_hex(s@.subrange(0, i as int)),
            acc as nat == hex_value(s@.subrange(0, i as int)),
        decreases n - i,
    {
        let c = s.get_char(i);
        let cv = c as u32;
        let ghost prefix = s@.subrange(0, i as int);
        let d: u32 = if cv >= '0' as u32 && cv <= '9' as u32 {
            cv - '0' as u32
        } else if cv >= 'a' as u32 && cv <= 'f' as u32 {
            cv - 'a' as u32 + 10
        } else if cv >= 'A' as u32 && cv <= 'F' as u32 {
            cv - 'A' as u32 + 10
        } else {
            proof {
                assert(!is_hex_digit(s@[i as int]));
            }
            return None;
        };
        proof {
            lemma_hex_value_bound(prefix);
            lemma_pow16_increases(i as nat, 7);
            reveal_with_fuel(pow16, 9);
            assert(pow16(7) == 0x10000000);
            assert(acc < 0x10000000);
            assert(is_hex_digit(s@[i as int]));
            assert(hex_char_val(s@[i as int]) == d as nat);
        }
        acc = acc * 16 + d as u64;
        proof {
            let ext = s@.subrange(0, (i + 1) as int);
            assert(ext.drop_last() =~= prefix);
            assert(ext.last() == s@[i as int]);
            assert forall|k: int| 0 <= k < ext.len() implies is_hex_digit(#[trigger] ext[k]) by {
                if k < i as int {
                    assert(ext[k] == prefix[k]);
                } else {
                    assert(ext[k] == s@[i as int]);
                }
            }
            assert(hex_value(ext) == hex_value(prefix) * 16 + hex_char_val(s@[i as int]));
        }
        i = i + 1;
    }
    proof {
        assert(s@.subrange(0, n as int) =~= s@);
        lemma_hex_value_bound(s@);
        lemma_pow16_increases(s@.len(), 8);
        reveal_with_fuel(pow16, 9);
        assert(pow16(8) == 0x100000000);
        assert(acc < 0x100000000);
    }
    Some(acc as u32)
}

} // verus!
