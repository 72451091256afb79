//! Session durations, held in thousandths of an hour.
//!
//! The wire encodes a slot's duration as a decimal string of hours.  Keeping
//! thousandths as plain integers makes accumulation exact and commutative.
//! [`parse_duration`] gives the exact grammar accepted; [`format_duration`]
//! renders a duration the way the default decimal formatting would, with the
//! fraction trimmed of trailing zeros and omitted when zero.

use vstd::prelude::*;
use crate::text::{to_chars, chars_to_string};

verus! {

/// Saturating addition: accumulated durations never wrap.
pub open spec fn sat_add(a: u64, b: u64) -> u64 {
    if a + b > u64::MAX {
        u64::MAX
    } else {
        (a + b) as u64
    }
}

pub open spec fn is_dec_digit(c: char) -> bool {
    48 <= c as u32 && c as u32 <= 57
}

pub open spec fn digit_val(c: char) -> nat {
    ((c as u32) - 48) as nat
}

pub open spec fn all_digits(s: Seq<char>) -> bool {
    forall|i: int| 0 <= i < s.len() ==> is_dec_digit(#[trigger] s[i])
}

/// The number that a big-endian digit string denotes.
pub open spec fn digits_val(s: Seq<char>) -> nat
    decreases s.len(),
{
    if s.len() == 0 {
        0
    } else {
        digits_val(s.drop_last()) * 10 + digit_val(s.last())
    }
}

pub open spec fn pow10(k: nat) -> nat
    decreases k,
{
    if k == 0 {
        1
    } else {
        10 * pow10((k - 1) as nat)
    }
}

proof fn lemma_pow10_16()
    ensures
        pow10(15) == 0x38D7EA4C68000,
        pow10(16) == 0x2386F26FC10000,
{
    assert(pow10(0) == 1);
    assert(pow10(1) == 10);
    assert(pow10(2) == 100);
    assert(pow10(3) == 1000);
    assert(pow10(4) == 10000);
    assert(pow10(5) == 100000);
    assert(pow10(6) == 1000000);
    assert(pow10(7) == 10000000);
    assert(pow10(8) == 100000000);
    assert(pow10(9) == 1000000000);
    assert(pow10(10) == 10000000000);
    assert(pow10(11) == 100000000000);
    assert(pow10(12) == 1000000000000);
    assert(pow10(13) == 10000000000000);
    assert(pow10(14) == 100000000000000);
    assert(pow10(15) == 1000000000000000);
    assert(pow10(16) == 10000000000000000);
}

/// A digit string of length `n` denotes less than `10^n`.
proof fn lemma_digits_val_bound(s: Seq<char>)
    requires
        all_digits(s),
    ensures
        digits_val(s) < pow10(s.len() as nat),
    decreases s.len(),
{
    if s.len() > 0 {
        let s0 = s.drop_last();
        assert(s0 == s.subrange(0, s.len() - 1));
        assert forall|i: int| 0 <= i < s0.len() implies is_dec_digit(#[trigger] s0[i]) by {
            assert(s.subrange(0, s.len() - 1)[i] == s[i]);
        }
        lemma_digits_val_bound(s0);
        assert(digit_val(s.last()) <= 9);
    }
}

/// The position of the first `.` in the string, or its length.
pub open spec fn first_dot(s: Seq<char>) -> int
    decreases s.len(),
{
    if s.len() == 0 {
        0
    } else if s[0] == '.' {
        0
    } else {
        1 + first_dot(s.skip(1))
    }
}

proof fn lemma_first_dot_props(s: Seq<char>)
    ensures
        0 <= first_dot(s) <= s.len(),
        forall|j: int| 0 <= j < first_dot(s) ==> s[j] != '.',
        first_dot(s) < s.len() ==> s[first_dot(s)] == '.',
    decreases s.len(),
{
    if s.len() > 0 && s[0] != '.' {
        lemma_first_dot_props(s.skip(1));
        assert forall|j: int| 0 <= j < first_dot(s) implies s[j] != '.' by {
            if j > 0 {
                assert(s.skip(1)[j - 1] == s[j]);
            }
        }
        if first_dot(s) < s.len() {
            assert(s.skip(1)[first_dot(s) - 1] == s[first_dot(s)]);
        }
    }
}

/// The digits before the first dot.
pub open spec fn int_part(s: Seq<char>) -> Seq<char> {
    s.take(first_dot(s))
}

/// The characters after the first dot, empty when there is none.
pub open spec fn frac_part(s: Seq<char>) -> Seq<char> {
    if first_dot(s) < s.len() {
        s.skip(first_dot(s) + 1)
    } else {
        Seq::empty()
    }
}

/// The accepted grammar: digits, optionally a dot and more digits, with at
/// least one digit overall.  No sign, no exponent.
pub open spec fn duration_ok(s: Seq<char>) -> bool {
    &&& all_digits(int_part(s))
    &&& all_digits(frac_part(s))
    &&& int_part(s).len() + frac_part(s).len() >= 1
}

/// The first three fraction digits, scaled to thousandths; shorter
/// fractions are padded, longer ones truncated.
pub open spec fn frac_millis(fp: Seq<char>) -> nat {
    if fp.len() >= 3 {
        digits_val(fp.take(3))
    } else {
        digits_val(fp) * pow10((3 - fp.len()) as nat)
    }
}

/// The duration in thousandths of an hour that the string denotes.
pub open spec fn duration_millis(s: Seq<char>) -> nat {
    digits_val(int_part(s)) * 1000 + frac_millis(frac_part(s))
}

fn digit_at(chars: &Vec<char>, i: usize) -> (b: bool)
    requires
        i < chars@.len(),
    ensures
        b == is_dec_digit(chars@[i as int]),
{
    let cu = chars[i] as u32;
    48 <= cu && cu <= 57
}

proof fn lemma_pow10_small()
    ensures
        pow10(0) == 1,
        pow10(1) == 10,
        pow10(2) == 100,
        pow10(3) == 1000,
{
    assert(pow10(0) == 1);
    assert(pow10(1) == 10);
    assert(pow10(2) == 100);
    assert(pow10(3) == 1000);
}

proof fn lemma_pow10_mono(a: nat, b: nat)
    requires
        a <= b,
    ensures
        pow10(a) <= pow10(b),
    decreases b,
{
    if a < b {
        lemma_pow10_mono(a, (b - 1) as nat);
        assert(pow10(b) == 10 * pow10((b - 1) as nat));
    }
}

/// Parses a wire duration string into thousandths of an hour.  Accepts the
/// grammar of [`duration_ok`] with at most sixteen integer digits; fraction
/// digits beyond the third are read but do not contribute.
pub fn parse_duration(s: &str) -> (r: Option<u64>)
    ensures
        r is Some <==> duration_ok(s@) && int_part(s@).len() <= 16,
        r matches Some(v) ==> v as nat == duration_millis(s@),
{
    let chars = to_chars(s);
    let n = chars.len();
    proof {
        lemma_first_dot_props(chars@);
    }
    let ghost fd = first_dot(chars@);
    let mut i: usize = 0;
    let mut v: u64 = 0;
    while i < n && digit_at(&chars, i)
        invariant
            n == chars@.len(),
            chars@ == s@,
            fd == first_dot(s@),
            0 <= fd <= n,
            forall|j: int| 0 <= j < fd ==> chars@[j] != '.',
            fd < n ==> chars@[fd] == '.',
            i <= n,
            forall|j: int| 0 <= j < i ==> is_dec_digit(#[trigger] chars@[j]),
            i <= 16,
            v as nat == digits_val(chars@.take(i as int)),
        decreases n - i,
    {
        if i == 16 {
            // a seventeenth integer digit: the value is out of range
            proof {
                assert(forall|j: int| 0 <= j <= 16 ==> is_dec_digit(#[trigger] chars@[j]));
                assert(fd >= 17) by {
                    if fd <= 16 {
                        assert(is_dec_digit(chars@[fd]));
                    }
                }
                assert(first_dot(s@) == fd);
                assert(int_part(s@) == s@.take(fd));
                assert(int_part(s@).len() == fd);
            }
            return None;
        }
        let d = chars[i] as u32 - 48;
        proof {
            lemma_digits_val_bound(chars@.take(i as int));
            lemma_pow10_16();
            lemma_pow10_mono(chars@.take(i as int).len() as nat, 15);
            assert(chars@.take(i + 1).drop_last() =~= chars@.take(i as int));
            assert(chars@.take(i + 1).last() == chars@[i as int]);
        }
        v = v * 10 + (d as u64);
        i += 1;
    }
    // the integer part ends here: position i is the dot, the end, or a
    // character that breaks the grammar
    if i < n {
        let c = chars[i];
        if c != '.' {
            proof {
                assert(!is_dec_digit(chars@[i as int]));
                if fd < i {
                    assert(is_dec_digit(chars@[fd]));
                    assert(chars@[fd] != '.');
                }
                assert(fd > i);
                assert(int_part(s@).len() == fd);
                assert(int_part(s@)[i as int] == chars@[i as int]);
                assert(!all_digits(int_part(s@)));
            }
            return None;
        }
    }
    proof {
        assert(fd == i) by {
            if fd < i {
                assert(is_dec_digit(chars@[fd]));
                assert(chars@[fd] != '.');
            }
            if fd > i {
                assert(i < n);
                assert(chars@[i as int] != '.');
            }
        }
        assert(int_part(s@) == chars@.take(i as int));
        assert(all_digits(int_part(s@))) by {
            assert forall|j: int| 0 <= j < i implies is_dec_digit(
                #[trigger] chars@.take(i as int)[j],
            ) by {
                assert(chars@.take(i as int)[j] == chars@[j]);
            }
        }
        lemma_digits_val_bound(chars@.take(i as int));
        lemma_pow10_16();
        lemma_pow10_mono(chars@.take(i as int).len() as nat, 16);
    }
    if i == n {
        if i == 0 {
            proof {
                assert(int_part(s@).len() == 0);
                assert(frac_part(s@).len() == 0);
            }
            return None;
        }
        proof {
            assert(first_dot(s@) == fd);
            assert(frac_part(s@) == Seq::<char>::empty());
            lemma_pow10_small();
            assert(digits_val(Seq::<char>::empty()) == 0);
            assert(frac_millis(frac_part(s@)) == 0);
        }
        return Some(v * 1000);
    }
    // fraction digits follow the dot
    let ghost fp = chars@.skip(i + 1);
    proof {
        assert(frac_part(s@) == fp);
    }
    let mut j: usize = i + 1;
    let mut f: u64 = 0;
    let mut count: usize = 0;
    while j < n
        invariant
            n == chars@.len(),
            chars@ == s@,
            i < j <= n,
            i < n,
            fp == chars@.skip(i + 1),
            frac_part(s@) == fp,
            first_dot(s@) == i as int,
            forall|k: int| 0 <= k < j - i - 1 ==> is_dec_digit(#[trigger] fp[k]),
            count == if j - i - 1 <= 3 {
                j - i - 1
            } else {
                3
            },
            f as nat == digits_val(fp.take(count as int)),
            f <= 999,
        decreases n - j,
    {
        let cu = chars[j] as u32;
        proof {
            assert(fp[j - i - 1] == chars@[j as int]);
        }
        if !(48 <= cu && cu <= 57) {
            proof {
                assert(!all_digits(frac_part(s@)));
            }
            return None;
        }
        if count < 3 {
            let d = cu - 48;
            proof {
                lemma_digits_val_bound(fp.take(count as int));
                lemma_pow10_small();
                lemma_pow10_mono(fp.take(count as int).len() as nat, 2);
                assert(fp.take(count + 1).drop_last() =~= fp.take(count as int));
                assert(fp.take(count + 1).last() == fp[count as int]);
                assert(fp[count as int] == chars@[j as int]);
            }
            f = f * 10 + (d as u64);
            count += 1;
        }
        j += 1;
    }
    proof {
        assert(all_digits(fp)) by {
            assert(fp.len() == n - i - 1);
        }
    }
    if i == 0 && n == 1 {
        // a lone dot: no digits at all
        proof {
            assert(int_part(s@).len() == 0);
            assert(frac_part(s@).len() == 0);
        }
        return None;
    }
    // pad short fractions to three digits
    proof {
        lemma_pow10_small();
        lemma_digits_val_bound(fp.take(count as int));
        if count <= 2 {
            lemma_pow10_mono(fp.take(count as int).len() as nat, 2);
        }
        if fp.len() < 3 {
            assert(fp.take(count as int) =~= fp);
        }
    }
    if count == 0 {
        proof {
            assert(frac_millis(fp) == 0);
        }
    } else if count == 1 {
        f = f * 100;
        proof {
            assert(frac_millis(fp) == digits_val(fp) * 100);
        }
    } else if count == 2 {
        f = f * 10;
        proof {
            assert(frac_millis(fp) == digits_val(fp) * 10);
        }
    } else {
        proof {
            assert(count == 3);
            if fp.len() >= 3 {
                assert(frac_millis(fp) == digits_val(fp.take(3)));
            } else {
                assert(fp.take(count as int) =~= fp);
            }
        }
    }
    proof {
        assert(f as nat == frac_millis(fp));
        assert(f <= 999) by {
            lemma_pow10_small();
        }
    }
    Some(v * 1000 + f)
}

pub open spec fn digit_char(d: nat) -> char {
    if d == 0 {
        '0'
    } else if d == 1 {
        '1'
    } else if d == 2 {
        '2'
    } else if d == 3 {
        '3'
    } else if d == 4 {
        '4'
    } else if d == 5 {
        '5'
    } else if d == 6 {
        '6'
    } else if d == 7 {
        '7'
    } else if d == 8 {
        '8'
    } else {
        '9'
    }
}

/// The decimal digit string of a number, no leading zeros (except `0`).
pub open spec fn dec_str(n: nat) -> Seq<char>
    decreases n,
{
    if n < 10 {
        seq![digit_char(n)]
    } else {
        dec_str(n / 10) + seq![digit_char(n % 10)]
    }
}

fn digit_char_exec(d: u64) -> (c: char)
    requires
        d < 10,
    ensures
        c == digit_char(d as nat),
{
    if d == 0 {
        '0'
    } else if d == 1 {
        '1'
    } else if d == 2 {
        '2'
    } else if d == 3 {
        '3'
    } else if d == 4 {
        '4'
    } else if d == 5 {
        '5'
    } else if d == 6 {
        '6'
    } else if d == 7 {
        '7'
    } else if d == 8 {
        '8'
    } else {
        '9'
    }
}

fn push_dec(n: u64, out: &mut Vec<char>)
    ensures
        final(out)@ == old(out)@ + dec_str(n as nat),
    decreases n,
{
    if n < 10 {
        out.push(digit_char_exec(n));
        proof {
            assert(old(out)@ + dec_str(n as nat) =~= old(out)@.push(digit_char(n as nat)));
        }
    } else {
        push_dec(n / 10, out);
        out.push(digit_char_exec(n % 10));
        proof {
            assert(old(out)@ + dec_str(n as nat) =~= (old(out)@ + dec_str((n / 10) as nat)).push(
                digit_char((n % 10) as nat),
            ));
        }
    }
}

/// The fraction suffix: empty when zero, else a dot and the non-zero-tailed
/// prefix of the three fraction digits.
pub open spec fn frac_str(frac: nat) -> Seq<char> {
    let d1 = frac / 100;
    let d2 = (frac / 10) % 10;
    let d3 = frac % 10;
    if d3 != 0 {
        seq!['.', digit_char(d1), digit_char(d2), digit_char(d3)]
    } else if d2 != 0 {
        seq!['.', digit_char(d1), digit_char(d2)]
    } else if d1 != 0 {
        seq!['.', digit_char(d1)]
    } else {
        Seq::empty()
    }
}

/// The rendering of a duration in thousandths of an hour.
pub open spec fn duration_str(mh: u64) -> Seq<char> {
    dec_str((mh / 1000) as nat) + frac_str((mh % 1000) as nat)
}

/// Renders a duration the way default decimal formatting would: the whole
/// hours, then the fraction with trailing zeros trimmed, omitted when zero.
pub fn format_duration(mh: u64) -> (r: String)
    ensures
        r@ == duration_str(mh),
{
    let whole = mh / 1000;
    let frac = mh % 1000;
    let mut out: Vec<char> = Vec::new();
    push_dec(whole, &mut out);
    let ghost whole_chars = out@;
    let d1 = frac / 100;
    let d2 = (frac / 10) % 10;
    let d3 = frac % 10;
    if d3 != 0 {
        out.push('.');
        out.push(digit_char_exec(d1));
        out.push(digit_char_exec(d2));
        out.push(digit_char_exec(d3));
        proof {
            assert(out@ =~= whole_chars + frac_str(frac as nat));
        }
    } else if d2 != 0 {
        out.push('.');
        out.push(digit_char_exec(d1));
        out.push(digit_char_exec(d2));
        proof {
            assert(out@ =~= whole_chars + frac_str(frac as nat));
        }
    } else if d1 != 0 {
        out.push('.');
        out.push(digit_char_exec(d1));
        proof {
            assert(out@ =~= whole_chars + frac_str(frac as nat));
        }
    } else {
        proof {
            assert(out@ =~= whole_chars + frac_str(frac as nat));
        }
    }
    proof {
        assert(Seq::<char>::empty() + dec_str((mh / 1000) as nat) =~= dec_str((mh / 1000) as nat));
    }
    chars_to_string(&out)
}

} // verus!
