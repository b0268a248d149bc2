//! Human-readable size tokens: parsing a token such as `12.3M` into a byte
//! count, and rendering a byte count back into a token such as `12.30000MB`.
//!
//! A token is a decimal number (at most five fractional digits) followed by
//! a unit: nothing or `B` for bytes, and `K`, `M`, `G` or `T`, each with an
//! optional trailing `B`, for the four binary multiples. The byte count a
//! token denotes is truncated to a whole number of bytes.

use vstd::prelude::*;
use vstd::arithmetic::div_mod::{
    lemma_div_denominator,
    lemma_div_is_ordered,
    lemma_div_multiples_vanish,
    lemma_fundamental_div_mod,
    lemma_fundamental_div_mod_converse,
};

verus! {

pub open spec fn is_digit(c: char) -> bool {
    48 <= c as int <= 57
}

pub open spec fn digit_val(c: char) -> int {
    c as int - 48
}

/// The value of a run of decimal digit characters.
pub open spec fn digits_val(s: Seq<char>) -> int
    decreases s.len(),
{
    if s.len() == 0 {
        0
    } else {
        digits_val(s.drop_last()) * 10 + digit_val(s.last())
    }
}

/// How many consecutive digit characters stand at position `i` and after.
pub open spec fn digit_run_len(s: Seq<char>, i: int) -> int
    decreases s.len() - i,
{
    if 0 <= i < s.len() && is_digit(s[i]) {
        1 + digit_run_len(s, i + 1)
    } else {
        0
    }
}

/// The multiplier a unit suffix denotes; 0 when the suffix is not
/// recognized.
pub open spec fn unit_mult(u: Seq<char>) -> int {
    if u.len() == 0 {
        1
    } else if u.len() == 1 {
        if u[0] == 'B' {
            1
        } else if u[0] == 'K' {
            1024
        } else if u[0] == 'M' {
            1048576
        } else if u[0] == 'G' {
            1073741824
        } else if u[0] == 'T' {
            1099511627776
        } else {
            0
        }
    } else if u.len() == 2 && u[1] == 'B' {
        if u[0] == 'K' {
            1024
        } else if u[0] == 'M' {
            1048576
        } else if u[0] == 'G' {
            1073741824
        } else if u[0] == 'T' {
            1099511627776
        } else {
            0
        }
    } else {
        0
    }
}

pub open spec fn pow10_small(e: int) -> int {
    if e <= 0 {
        1
    } else if e == 1 {
        10
    } else if e == 2 {
        100
    } else if e == 3 {
        1000
    } else if e == 4 {
        10000
    } else {
        100000
    }
}

pub open spec fn size_int_len(s: Seq<char>) -> int {
    digit_run_len(s, 0)
}

pub open spec fn size_has_frac(s: Seq<char>) -> bool {
    size_int_len(s) < s.len() && s[size_int_len(s)] == '.'
}

pub open spec fn size_frac_len(s: Seq<char>) -> int {
    if size_has_frac(s) {
        digit_run_len(s, size_int_len(s) + 1)
    } else {
        0
    }
}

pub open spec fn size_unit_start(s: Seq<char>) -> int {
    if size_has_frac(s) {
        size_int_len(s) + 1 + size_frac_len(s)
    } else {
        size_int_len(s)
    }
}

pub open spec fn size_unit(s: Seq<char>) -> Seq<char> {
    s.subrange(size_unit_start(s), s.len() as int)
}

/// A token is well shaped when it opens with at least one digit, carries
/// one to five fractional digits if it has a dot at all, and closes with a
/// recognized unit suffix.
pub open spec fn size_shape_ok(s: Seq<char>) -> bool {
    &&& size_int_len(s) >= 1
    &&& (size_has_frac(s) ==> 1 <= size_frac_len(s) <= 5)
    &&& unit_mult(size_unit(s)) != 0
}

pub open spec fn size_int_val(s: Seq<char>) -> int {
    digits_val(s.subrange(0, size_int_len(s)))
}

pub open spec fn size_frac_val(s: Seq<char>) -> int {
    digits_val(s.subrange(size_int_len(s) + 1, size_int_len(s) + 1 + size_frac_len(s)))
}

/// The token's numeric value in hundred-thousandths of the unit.
pub open spec fn size_scaled5(s: Seq<char>) -> int {
    if size_has_frac(s) {
        size_int_val(s) * 100000 + size_frac_val(s) * pow10_small(5 - size_frac_len(s))
    } else {
        size_int_val(s) * 100000
    }
}

/// The byte count a size token denotes, truncated to whole bytes: `None`
/// when the token is malformed or the count does not fit in a machine word.
pub open spec fn parse_size_spec(s: Seq<char>) -> Option<u64> {
    if !size_shape_ok(s) {
        None
    } else if size_int_val(s) > u64::MAX {
        None
    } else {
        let total = size_scaled5(s) * unit_mult(size_unit(s)) / 100000;
        if total > u64::MAX {
            None
        } else {
            Some(total as u64)
        }
    }
}

/// Which of the four binary units a byte count is rendered in.
pub open spec fn unit_index(b: int) -> int {
    if b < 1048576 {
        0
    } else if b < 1073741824 {
        1
    } else if b < 1099511627776 {
        2
    } else {
        3
    }
}

/// The byte multiplier of the unit at index `i`: 1024 raised to `i + 1`.
pub open spec fn unit_divisor(i: int) -> int {
    if i == 0 {
        1024
    } else if i == 1 {
        1048576
    } else if i == 2 {
        1073741824
    } else {
        1099511627776
    }
}

pub open spec fn unit_chars(i: int) -> Seq<char> {
    if i == 0 {
        seq!['K', 'B']
    } else if i == 1 {
        seq!['M', 'B']
    } else if i == 2 {
        seq!['G', 'B']
    } else {
        seq!['T', 'B']
    }
}

pub open spec fn digit_char(d: int) -> char {
    if d == 0 {
        '0'
    } else if d == 1 {
        '1'
    } else if d == 2 {
        '2'
    } else if d == 3 {
        '3'
    } else if d == 4 {
        '4'
    } else if d == 5 {
        '5'
    } else if d == 6 {
        '6'
    } else if d == 7 {
        '7'
    } else if d == 8 {
        '8'
    } else {
        '9'
    }
}

/// The decimal digits of a nonnegative number, most significant first.
pub open spec fn dec_digits(n: int) -> Seq<char>
    decreases n,
{
    if n < 10 {
        seq![digit_char(n)]
    } else {
        dec_digits(n / 10).push(digit_char(n % 10))
    }
}

/// A number below 100000 as exactly five digits, zero-padded.
pub open spec fn pad5(n: int) -> Seq<char> {
    seq![
        digit_char(n / 10000 % 10),
        digit_char(n / 1000 % 10),
        digit_char(n / 100 % 10),
        digit_char(n / 10 % 10),
        digit_char(n % 10),
    ]
}

/// The rendered value: the byte count in hundred-thousandths of the chosen
/// unit, truncated.
pub open spec fn size_disp5(b: int) -> int {
    b * 100000 / unit_divisor(unit_index(b))
}

/// The token a byte count is rendered as: the value in the chosen unit with
/// exactly five fractional digits, then the unit's two letters.
pub open spec fn format_size_spec(b: int) -> Seq<char> {
    dec_digits(size_disp5(b) / 100000) + seq!['.'] + pad5(size_disp5(b) % 100000) + unit_chars(
        unit_index(b),
    )
}

/// How far below the original byte count a round-tripped token may land:
/// one step of the five-decimal grid of the chosen unit, plus one byte of
/// truncation.
pub open spec fn size_round_trip_tolerance(b: int) -> int {
    unit_divisor(unit_index(b)) / 100000 + 1
}

proof fn lemma_digit_run_props(s: Seq<char>, start: int)
    requires
        0 <= start <= s.len(),
    ensures
        digit_run_len(s, start) >= 0,
        start + digit_run_len(s, start) <= s.len(),
        forall|k: int|
            start <= k < start + digit_run_len(s, start) ==> is_digit(#[trigger] s[k]),
        start + digit_run_len(s, start) == s.len() || !is_digit(
            s[start + digit_run_len(s, start)],
        ),
    decreases s.len() - start,
{
    if start < s.len() && is_digit(s[start]) {
        lemma_digit_run_props(s, start + 1);
    }
}

proof fn lemma_digit_run_at_least(s: Seq<char>, start: int, k: int)
    requires
        0 <= start,
        0 <= k,
        start + k <= s.len(),
        forall|j: int| start <= j < start + k ==> is_digit(#[trigger] s[j]),
    ensures
        digit_run_len(s, start) >= k,
    decreases k,
{
    lemma_digit_run_props(s, start);
    if k > 0 {
        assert(is_digit(s[start]));
        lemma_digit_run_at_least(s, start + 1, k - 1);
    }
}

proof fn lemma_digits_val_nonneg(s: Seq<char>)
    requires
        forall|j: int| 0 <= j < s.len() ==> is_digit(#[trigger] s[j]),
    ensures
        digits_val(s) >= 0,
    decreases s.len(),
{
    if s.len() > 0 {
        lemma_digits_val_nonneg(s.drop_last());
    }
}

proof fn lemma_digits_val_step(s: Seq<char>, i: int)
    requires
        0 <= i < s.len(),
    ensures
        digits_val(s.subrange(0, i + 1)) == digits_val(s.subrange(0, i)) * 10 + digit_val(s[i]),
{
    assert(s.subrange(0, i + 1).drop_last() =~= s.subrange(0, i));
    assert(s.subrange(0, i + 1).last() == s[i]);
}

proof fn lemma_digits_val_prefix_monotone(s: Seq<char>, i: int, j: int)
    requires
        0 <= i <= j <= s.len(),
        forall|k: int| 0 <= k < j ==> is_digit(#[trigger] s[k]),
    ensures
        digits_val(s.subrange(0, i)) <= digits_val(s.subrange(0, j)),
    decreases j - i,
{
    if i < j {
        lemma_digits_val_prefix_monotone(s, i, j - 1);
        lemma_digits_val_step(s, j - 1);
        assert(forall|k: int|
            0 <= k < s.subrange(0, j - 1).len() ==> is_digit(#[trigger] s.subrange(0, j - 1)[k]));
        lemma_digits_val_nonneg(s.subrange(0, j - 1));
    }
}

/// All digits of a rendered number, their value, and nonemptiness.
proof fn lemma_dec_digits_props(n: int)
    requires
        n >= 0,
    ensures
        dec_digits(n).len() >= 1,
        forall|j: int| 0 <= j < dec_digits(n).len() ==> is_digit(#[trigger] dec_digits(n)[j]),
        digits_val(dec_digits(n)) == n,
    decreases n,
{
    if n < 10 {
        assert(dec_digits(n) =~= seq![digit_char(n)]);
        assert(digits_val(dec_digits(n).drop_last()) == 0) by {
            assert(dec_digits(n).drop_last() =~= Seq::<char>::empty());
        }
    } else {
        lemma_dec_digits_props(n / 10);
        let p = dec_digits(n / 10);
        let w = p.push(digit_char(n % 10));
        assert(w.drop_last() =~= p);
        assert(w.last() == digit_char(n % 10));
        lemma_fundamental_div_mod(n, 10);
    }
}

/// Converts a size token such as `12.3M` into the byte count it denotes,
/// truncated to whole bytes; `None` when the token is malformed or the
/// count does not fit in a machine word.
pub fn string_to_bytes_value(s: &str) -> (r: Option<u64>)
    ensures
        r == parse_size_spec(s@),
{
    let n = s.unicode_len();
    // The run of digits before any dot.
    let mut i: usize = 0;
    let mut acc: u128 = 0;
    loop
        invariant
            i <= n,
            n == s@.len(),
            forall|j: int| 0 <= j < i ==> is_digit(#[trigger] s@[j]),
            acc == digits_val(s@.subrange(0, i as int)),
            acc <= u64::MAX,
        ensures
            i <= n,
            forall|j: int| 0 <= j < i ==> is_digit(#[trigger] s@[j]),
            acc == digits_val(s@.subrange(0, i as int)),
            acc <= u64::MAX,
            i == n || !is_digit(s@[i as int]),
        decreases n - i,
    {
        if i == n {
            break;
        }
        let c = s.get_char(i);
        let v = c as u32;
        if !(48 <= v && v <= 57) {
            break;
        }
        proof {
            lemma_digits_val_step(s@, i as int);
        }
        acc = acc * 10 + (v - 48) as u128;
        i = i + 1;
        if acc > u64::MAX as u128 {
            // The integer part alone exceeds every representable count.
            proof {
                lemma_digit_run_props(s@, 0);
                let e1 = size_int_len(s@);
                if size_shape_ok(s@) {
                    lemma_digit_run_at_least(s@, 0, i as int);
                    lemma_digits_val_prefix_monotone(s@, i as int, e1);
                }
            }
            return None;
        }
    }
    proof {
        lemma_digit_run_props(s@, 0);
        assert(size_int_len(s@) == i as int);
    }
    if i == 0 {
        return None;
    }
    let int_len = i;
    // The optional fractional digits after a dot.
    let mut frac5: u64 = 0;
    let mut j = i;
    let mut has_frac = false;
    if i < n && s.get_char(i) == '.' {
        has_frac = true;
        j = i + 1;
        let mut flen: usize = 0;
        let mut facc: u64 = 0;
        loop
            invariant
                int_len + 1 <= j <= n,
                n == s@.len(),
                j == int_len + 1 + flen,
                0 <= flen <= 5,
                s@[int_len as int] == '.',
                forall|k: int| int_len + 1 <= k < j ==> is_digit(#[trigger] s@[k]),
                facc == digits_val(s@.subrange(int_len + 1, j as int)),
                facc < pow10_small(flen as int),
                size_int_len(s@) == int_len,
                int_len >= 1,
            ensures
                int_len + 1 <= j <= n,
                j == int_len + 1 + flen,
                0 <= flen <= 5,
                forall|k: int| int_len + 1 <= k < j ==> is_digit(#[trigger] s@[k]),
                facc == digits_val(s@.subrange(int_len + 1, j as int)),
                facc < pow10_small(flen as int),
                j == n || !is_digit(s@[j as int]),
            decreases n - j,
        {
            if j == n {
                break;
            }
            let c = s.get_char(j);
            let v = c as u32;
            if !(48 <= v && v <= 57) {
                break;
            }
            if flen == 5 {
                // A sixth fractional digit: the token is malformed.
                proof {
                    lemma_digit_run_at_least(s@, int_len + 1, 6);
                }
                return None;
            }
            proof {
                let t = s@.subrange(int_len + 1, j + 1 as int);
                assert(t.drop_last() =~= s@.subrange(int_len + 1, j as int));
                assert(t.last() == s@[j as int]);
            }
            facc = facc * 10 + (v - 48) as u64;
            flen = flen + 1;
            j = j + 1;
        }
        proof {
            lemma_digit_run_props(s@, int_len + 1);
            assert(size_frac_len(s@) == flen as int);
        }
        if flen == 0 {
            return None;
        }
        let pad: u64 = if flen == 1 {
            10000
        } else if flen == 2 {
            1000
        } else if flen == 3 {
            100
        } else if flen == 4 {
            10
        } else {
            1
        };
        frac5 = facc * pad;
        assert(frac5 == size_frac_val(s@) * pow10_small(5 - size_frac_len(s@)));
        assert(frac5 < 100000);
    } else {
        assert(!size_has_frac(s@));
    }
    // The unit suffix.
    let mult: u64 = if j == n {
        1
    } else if n - j == 1 {
        let c = s.get_char(j);
        proof {
            assert(size_unit(s@) =~= seq![s@[j as int]]);
        }
        if c == 'B' {
            1
        } else if c == 'K' {
            1024
        } else if c == 'M' {
            1048576
        } else if c == 'G' {
            1073741824
        } else if c == 'T' {
            1099511627776
        } else {
            return None;
        }
    } else if n - j == 2 {
        let c0 = s.get_char(j);
        let c1 = s.get_char(j + 1);
        proof {
            assert(size_unit(s@) =~= seq![s@[j as int], s@[j + 1]]);
        }
        if c1 != 'B' {
            return None;
        }
        if c0 == 'K' {
            1024
        } else if c0 == 'M' {
            1048576
        } else if c0 == 'G' {
            1073741824
        } else if c0 == 'T' {
            1099511627776
        } else {
            return None;
        }
    } else {
        proof {
            assert(size_unit(s@).len() > 2);
        }
        return None;
    };
    proof {
        if j == n {
            assert(size_unit(s@) =~= Seq::<char>::empty());
        }
        assert(mult == unit_mult(size_unit(s@)));
        assert(size_shape_ok(s@));
        assert(acc == size_int_val(s@));
    }
    let scaled: u128 = acc * 100000 + frac5 as u128;
    proof {
        assert(scaled == size_scaled5(s@));
    }
    let total: u128 = if mult == 1 {
        scaled / 100000
    } else if mult == 1024 {
        scaled * 1024 / 100000
    } else if mult == 1048576 {
        scaled * 1048576 / 100000
    } else if mult == 1073741824 {
        scaled * 1073741824 / 100000
    } else {
        scaled * 1099511627776 / 100000
    };
    proof {
        assert(total == size_scaled5(s@) * unit_mult(size_unit(s@)) / 100000);
    }
    if total > u64::MAX as u128 {
        return None;
    }
    Some(total as u64)
}

/// The unit letters are not digits, and their multiplier matches the
/// divisor of the same index.
proof fn lemma_unit_chars_props(i: int)
    requires
        0 <= i <= 3,
    ensures
        unit_chars(i).len() == 2,
        !is_digit(unit_chars(i)[0]),
        unit_chars(i)[0] != '.',
        unit_chars(i)[1] == 'B',
        unit_mult(unit_chars(i)) == unit_divisor(i),
{
}

proof fn lemma_digit_char_val(d: int)
    requires
        0 <= d <= 9,
    ensures
        is_digit(digit_char(d)),
        digit_val(digit_char(d)) == d,
{
}

/// Five zero-padded digits render their own value.
proof fn lemma_pad5_props(f: int)
    requires
        0 <= f < 100000,
    ensures
        pad5(f).len() == 5,
        forall|j: int| 0 <= j < 5 ==> is_digit(#[trigger] pad5(f)[j]),
        digits_val(pad5(f)) == f,
{
    let g1 = f / 10;
    let g2 = f / 100;
    let g3 = f / 1000;
    let g4 = f / 10000;
    lemma_fundamental_div_mod(f, 10);
    lemma_fundamental_div_mod(g1, 10);
    lemma_fundamental_div_mod(g2, 10);
    lemma_fundamental_div_mod(g3, 10);
    lemma_div_denominator(f, 10, 10);
    lemma_div_denominator(f, 100, 10);
    lemma_div_denominator(f, 1000, 10);
    assert(g4 < 10);
    assert(g4 % 10 == g4);
    let p = pad5(f);
    let s1 = seq![p[0]];
    let s2 = seq![p[0], p[1]];
    let s3 = seq![p[0], p[1], p[2]];
    let s4 = seq![p[0], p[1], p[2], p[3]];
    assert(s1.drop_last() =~= Seq::<char>::empty());
    assert(s2.drop_last() =~= s1);
    assert(s3.drop_last() =~= s2);
    assert(s4.drop_last() =~= s3);
    assert(p.drop_last() =~= s4);
    lemma_digit_char_val(g4 % 10);
    lemma_digit_char_val(g3 % 10);
    lemma_digit_char_val(g2 % 10);
    lemma_digit_char_val(g1 % 10);
    lemma_digit_char_val(f % 10);
    assert(p[0] == digit_char(g4 % 10));
    assert(p[1] == digit_char(g3 % 10));
    assert(p[2] == digit_char(g2 % 10));
    assert(p[3] == digit_char(g1 % 10));
    assert(p[4] == digit_char(f % 10));
    assert(s1.last() == p[0]);
    assert(digits_val(s1.drop_last()) == 0);
    assert(digits_val(s1) == g4);
    assert(digits_val(s2) == g4 * 10 + g3 % 10);
    assert(digits_val(s3) == digits_val(s2) * 10 + g2 % 10);
    assert(digits_val(s4) == digits_val(s3) * 10 + g1 % 10);
    assert(digits_val(p) == digits_val(s4) * 10 + f % 10);
}

/// Returns the one-character text of a decimal digit.
fn digit_str(d: u8) -> (r: &'static str)
    requires
        d < 10,
    ensures
        r@ =~= seq![digit_char(d as int)],
{
    proof {
        reveal_strlit("0");
        reveal_strlit("1");
        reveal_strlit("2");
        reveal_strlit("3");
        reveal_strlit("4");
        reveal_strlit("5");
        reveal_strlit("6");
        reveal_strlit("7");
        reveal_strlit("8");
        reveal_strlit("9");
    }
    if d == 0 {
        "0"
    } else if d == 1 {
        "1"
    } else if d == 2 {
        "2"
    } else if d == 3 {
        "3"
    } else if d == 4 {
        "4"
    } else if d == 5 {
        "5"
    } else if d == 6 {
        "6"
    } else if d == 7 {
        "7"
    } else if d == 8 {
        "8"
    } else {
        "9"
    }
}

/// Appends the decimal digits of `n` to `out`.
fn push_decimal(out: &mut String, n: u64)
    ensures
        final(out)@ == old(out)@ + dec_digits(n as int),
    decreases n,
{
    if n < 10 {
        out.append(digit_str(n as u8));
    } else {
        push_decimal(out, n / 10);
        out.append(digit_str((n % 10) as u8));
        proof {
            assert(old(out)@ + dec_digits(n as int / 10) + seq![digit_char(n as int % 10)]
                =~= old(out)@ + dec_digits(n as int));
        }
    }
}

/// Renders a byte count as a size token: the count in the largest binary
/// unit that keeps a value under 1024 (capped at terabytes), with exactly
/// five fractional digits, truncated.
pub fn bytes_value_to_size_string(bytes_value: u64) -> (r: String)
    ensures
        r@ == format_size_spec(bytes_value as int),
{
    let disp5_wide: u128;
    let unit_str: &'static str;
    proof {
        reveal_strlit("KB");
        reveal_strlit("MB");
        reveal_strlit("GB");
        reveal_strlit("TB");
    }
    if bytes_value < 1048576 {
        disp5_wide = (bytes_value as u128) * 100000 / 1024;
        unit_str = "KB";
        proof {
            assert(unit_str@ =~= unit_chars(unit_index(bytes_value as int)));
        }
    } else if bytes_value < 1073741824 {
        disp5_wide = (bytes_value as u128) * 100000 / 1048576;
        unit_str = "MB";
        proof {
            assert(unit_str@ =~= unit_chars(unit_index(bytes_value as int)));
        }
    } else if bytes_value < 1099511627776 {
        disp5_wide = (bytes_value as u128) * 100000 / 1073741824;
        unit_str = "GB";
        proof {
            assert(unit_str@ =~= unit_chars(unit_index(bytes_value as int)));
        }
    } else {
        disp5_wide = (bytes_value as u128) * 100000 / 1099511627776;
        unit_str = "TB";
        proof {
            assert(unit_str@ =~= unit_chars(unit_index(bytes_value as int)));
        }
    }
    proof {
        assert(disp5_wide == size_disp5(bytes_value as int));
    }
    let int_part: u64 = (disp5_wide / 100000) as u64;
    let frac: u64 = (disp5_wide % 100000) as u64;
    let mut out = String::new();
    push_decimal(&mut out, int_part);
    proof {
        reveal_strlit(".");
    }
    out.append(".");
    out.append(digit_str((frac / 10000 % 10) as u8));
    out.append(digit_str((frac / 1000 % 10) as u8));
    out.append(digit_str((frac / 100 % 10) as u8));
    out.append(digit_str((frac / 10 % 10) as u8));
    out.append(digit_str((frac % 10) as u8));
    out.append(unit_str);
    proof {
        assert(out@ =~= format_size_spec(bytes_value as int));
    }
    out
}

/// Rendering any byte count yields a token that parses back to a count no
/// larger than the original and within the tolerance of the chosen unit.
pub proof fn lemma_format_parses(b: u64)
    ensures
        ({
            let t = format_size_spec(b as int);
            &&& parse_size_spec(t) is Some
            &&& parse_size_spec(t)->0 <= b
            &&& b - parse_size_spec(t)->0 <= size_round_trip_tolerance(b as int)
        }),
{
    let bi = b as int;
    let i = unit_index(bi);
    let m = unit_divisor(i);
    let x = bi * 100000;
    lemma_fundamental_div_mod(x, m);
    vstd::arithmetic::div_mod::lemma_mod_division_less_than_divisor(x, m);
    vstd::arithmetic::div_mod::lemma_div_pos_is_pos(x, m);
    let d = x / m;
    let r = x % m;
    assert(d == size_disp5(bi));
    lemma_fundamental_div_mod(d, 100000);
    vstd::arithmetic::div_mod::lemma_mod_division_less_than_divisor(d, 100000);
    vstd::arithmetic::div_mod::lemma_div_pos_is_pos(d, 100000);
    let ip = d / 100000;
    let fr = d % 100000;
    lemma_dec_digits_props(ip);
    lemma_pad5_props(fr);
    lemma_unit_chars_props(i);
    let a = dec_digits(ip);
    let al = a.len() as int;
    let t = format_size_spec(bi);
    assert(t =~= a + seq!['.'] + pad5(fr) + unit_chars(i));
    assert(t.len() == al + 8);
    assert(forall|k: int| 0 <= k < al ==> t[k] == a[k]);
    assert(t[al] == '.');
    assert(forall|k: int| 0 <= k < 5 ==> t[al + 1 + k] == pad5(fr)[k]);
    assert(t[al + 6] == unit_chars(i)[0]);
    assert(t[al + 7] == 'B');
    // The integer digit run is exactly the rendered integer part.
    lemma_digit_run_at_least(t, 0, al);
    lemma_digit_run_props(t, 0);
    assert(!is_digit('.'));
    assert(size_int_len(t) == al);
    // The fractional run is exactly the five padded digits.
    assert(size_has_frac(t));
    lemma_digit_run_at_least(t, al + 1, 5);
    lemma_digit_run_props(t, al + 1);
    assert(size_frac_len(t) == 5);
    assert(size_unit_start(t) == al + 6);
    assert(size_unit(t) =~= unit_chars(i));
    assert(size_shape_ok(t));
    // The token's value in hundred-thousandths of the unit is the rendered
    // value.
    assert(t.subrange(0, al) =~= a);
    assert(size_int_val(t) == ip);
    assert(t.subrange(al + 1, al + 6) =~= pad5(fr));
    assert(size_frac_val(t) == fr);
    assert(size_scaled5(t) == ip * 100000 + fr);
    assert(size_scaled5(t) == d);
    // The integer part fits: it is at most the byte count itself.
    lemma_div_denominator(x, m, 100000);
    lemma_div_denominator(x, 100000, m);
    assert(m * 100000 == 100000 * m);
    assert(x / 100000 == bi) by {
        lemma_div_multiples_vanish(bi, 100000);
    }
    assert(ip == bi / m);
    vstd::arithmetic::div_mod::lemma_div_nonincreasing(bi, m);
    assert(ip <= bi);
    // The parsed-back count: strip the truncation remainder from the
    // original.
    let total2 = d * m / 100000;
    assert(d * m == x - r);
    lemma_fundamental_div_mod(r, 100000);
    vstd::arithmetic::div_mod::lemma_mod_division_less_than_divisor(r, 100000);
    vstd::arithmetic::div_mod::lemma_div_pos_is_pos(r, 100000);
    let ra = r / 100000;
    let rc = r % 100000;
    if rc == 0 {
        assert(x - r == (bi - ra) * 100000 + 0) by {
            assert(x == bi * 100000);
            assert(r == ra * 100000);
        }
        lemma_fundamental_div_mod_converse(x - r, 100000, bi - ra, 0);
        assert(total2 == bi - ra);
    } else {
        assert(x - r == (bi - ra - 1) * 100000 + (100000 - rc)) by {
            assert(x == bi * 100000);
            assert(r == ra * 100000 + rc);
        }
        lemma_fundamental_div_mod_converse(x - r, 100000, bi - ra - 1, 100000 - rc);
        assert(total2 == bi - ra - 1);
    }
    lemma_div_is_ordered(r, m - 1, 100000);
    lemma_div_is_ordered(m - 1, m, 100000);
    assert(ra <= (m - 1) / 100000);
    assert(bi - total2 <= m / 100000 + 1);
    assert(total2 <= bi);
    assert(total2 >= 0);
    assert(parse_size_spec(t) == Some(total2 as u64));
}

/// Round trip: a size token parsed to a byte count and rendered again
/// denotes a count no larger than the first, and within the tolerance of
/// the unit the renderer chose.
pub proof fn lemma_size_round_trip(s: Seq<char>)
    requires
        parse_size_spec(s) is Some,
    ensures
        ({
            let b = parse_size_spec(s)->0;
            let t = format_size_spec(b as int);
            &&& parse_size_spec(t) is Some
            &&& parse_size_spec(t)->0 <= b
            &&& b - parse_size_spec(t)->0 <= size_round_trip_tolerance(b as int)
        }),
{
    lemma_format_parses(parse_size_spec(s)->0);
}

} // verus!
