//! Byte-level building blocks shared by the wire codecs: decimal numbers
//! and the conversion between byte payloads and strings.
//!
//! Every encoder has an exact specification, and every parser's result is
//! pinned by a specification function over the input bytes, so that the
//! round-trip laws of the message codecs can be stated and proved.

use vstd::prelude::*;
use vstd::string::StrSliceExecFns;

verus! {

pub open spec fn is_digit(b: u8) -> bool {
    0x30 <= b <= 0x39
}

/// The canonical decimal digits of a nonnegative integer.
pub open spec fn dec_digits(n: int) -> Seq<u8>
    decreases n,
{
    if n < 10 {
        seq![(0x30 + if n >= 0 { n } else { 0 }) as u8]
    } else {
        dec_digits(n / 10).push((0x30 + n % 10) as u8)
    }
}

/// The value of a digit string.
pub open spec fn dec_val(s: Seq<u8>) -> int
    decreases s.len(),
{
    if s.len() == 0 {
        0
    } else {
        dec_val(s.drop_last()) * 10 + (s.last() - 0x30)
    }
}

/// The length of the leading digit run.
pub open spec fn digit_run(s: Seq<u8>) -> int
    decreases s.len(),
{
    if s.len() == 0 || !is_digit(s[0]) {
        0
    } else {
        1 + digit_run(s.skip(1))
    }
}

/// Parse a decimal number at the head of the input: at most ten digits,
/// value at most `max`.  Yields the value and the bytes consumed.
pub open spec fn parse_uint(s: Seq<u8>, max: int) -> Option<(int, int)> {
    let k = digit_run(s);
    if k == 0 || k > 10 {
        None
    } else {
        let v = dec_val(s.take(k));
        if v <= max {
            Some((v, k))
        } else {
            None
        }
    }
}

/// Small powers of ten, written out for the digit-count bounds.
proof fn lemma_pow10()
    ensures
        vstd::arithmetic::power::pow(10, 9) == 1000000000,
        vstd::arithmetic::power::pow(10, 10) == 10000000000,
{
    reveal(vstd::arithmetic::power::pow);
    assert(vstd::arithmetic::power::pow(10, 0) == 1);
    assert(vstd::arithmetic::power::pow(10, 1) == 10);
    assert(vstd::arithmetic::power::pow(10, 2) == 100);
    assert(vstd::arithmetic::power::pow(10, 3) == 1000);
    assert(vstd::arithmetic::power::pow(10, 4) == 10000);
    assert(vstd::arithmetic::power::pow(10, 5) == 100000);
    assert(vstd::arithmetic::power::pow(10, 6) == 1000000);
    assert(vstd::arithmetic::power::pow(10, 7) == 10000000);
    assert(vstd::arithmetic::power::pow(10, 8) == 100000000);
    assert(vstd::arithmetic::power::pow(10, 9) == 1000000000);
    assert(vstd::arithmetic::power::pow(10, 10) == 10000000000);
}

pub proof fn lemma_dec_digits_wf(n: int)
    requires
        0 <= n,
    ensures
        1 <= dec_digits(n).len(),
        n < 0x100000000 ==> dec_digits(n).len() <= 10,
        forall|i: int| 0 <= i < dec_digits(n).len() ==> is_digit(#[trigger] dec_digits(n)[i]),
        dec_val(dec_digits(n)) == n,
    decreases n,
{
    if n < 10 {
        assert(dec_digits(n) == seq![(0x30 + n) as u8]);
        assert(is_digit(dec_digits(n)[0]));
        assert(dec_digits(n).drop_last() =~= Seq::<u8>::empty());
        assert(dec_val(Seq::<u8>::empty()) == 0);
        assert(dec_val(dec_digits(n)) == n);
    } else {
        lemma_dec_digits_wf(n / 10);
        assert(dec_digits(n).drop_last() =~= dec_digits(n / 10));
        assert(dec_digits(n).last() == (0x30 + n % 10) as u8);
        assert forall|i: int| 0 <= i < dec_digits(n).len() implies is_digit(
            #[trigger] dec_digits(n)[i],
        ) by {
            if i < dec_digits(n).len() - 1 {
                assert(dec_digits(n)[i] == dec_digits(n / 10)[i]);
            } else {
                assert(dec_digits(n)[i] == (0x30 + n % 10) as u8);
            }
        }
        if n < 0x100000000 {
            // a 32-bit value has at most ten digits
            lemma_pow10();
            lemma_dec_len_bound(n / 10, 9);
        }
    }
}

/// A bound on digit count: a value below 10^k has at most k digits.
proof fn lemma_dec_len_bound(n: int, k: int)
    requires
        0 <= n,
        1 <= k,
        n < vstd::arithmetic::power::pow(10, k as nat),
    ensures
        dec_digits(n).len() <= k,
    decreases k,
{
    vstd::arithmetic::power::lemma_pow_positive(10, k as nat);
    if n < 10 {
    } else {
        vstd::arithmetic::power::lemma_pow1(10);
        vstd::arithmetic::power::lemma_pow_adds(10, 1, (k - 1) as nat);
        if k == 1 {
            assert(vstd::arithmetic::power::pow(10, 1) == 10);
            assert(false);
        }
        lemma_dec_len_bound(n / 10, k - 1);
    }
}

pub proof fn lemma_digit_run_nonneg(s: Seq<u8>)
    ensures
        digit_run(s) >= 0,
    decreases s.len(),
{
    if !(s.len() == 0 || !is_digit(s[0])) {
        lemma_digit_run_nonneg(s.skip(1));
    }
}

/// The digit run of a digit string followed by a non-digit (or nothing) is
/// the digit string itself.
pub proof fn lemma_digit_run_concat(d: Seq<u8>, rest: Seq<u8>)
    requires
        forall|i: int| 0 <= i < d.len() ==> is_digit(#[trigger] d[i]),
        rest.len() > 0 ==> !is_digit(rest[0]),
    ensures
        digit_run(d + rest) == d.len(),
    decreases d.len(),
{
    if d.len() == 0 {
        assert(d + rest =~= rest);
    } else {
        assert((d + rest)[0] == d[0]);
        assert((d + rest).skip(1) =~= d.skip(1) + rest);
        assert(forall|i: int| 0 <= i < d.skip(1).len() ==> is_digit(#[trigger] d.skip(1)[i]));
        lemma_digit_run_concat(d.skip(1), rest);
    }
}

/// Parsing the canonical digits of `n` (with a non-digit boundary after
/// them) yields `n` back.
pub proof fn lemma_parse_uint_enc(n: int, rest: Seq<u8>, max: int)
    requires
        0 <= n <= max,
        n < 0x100000000,
        rest.len() > 0 ==> !is_digit(rest[0]),
    ensures
        parse_uint(dec_digits(n) + rest, max) == Some((n, dec_digits(n).len() as int)),
{
    lemma_dec_digits_wf(n);
    lemma_digit_run_concat(dec_digits(n), rest);
    assert((dec_digits(n) + rest).take(dec_digits(n).len() as int) =~= dec_digits(n));
}

/// Emit the canonical decimal digits of a 32-bit value.
pub fn write_u32(n: u32, out: &mut Vec<u8>)
    ensures
        final(out)@ == old(out)@ + dec_digits(n as int),
    decreases n,
{
    if n < 10 {
        out.push(0x30 + (n as u8));
        proof {
            assert(final(out)@ =~= old(out)@ + dec_digits(n as int));
        }
    } else {
        write_u32(n / 10, out);
        out.push(0x30 + ((n % 10) as u8));
        proof {
            assert(dec_digits(n as int) =~= dec_digits(n as int / 10).push(
                (0x30 + n as int % 10) as u8,
            ));
            assert(final(out)@ =~= old(out)@ + dec_digits(n as int));
        }
    }
}

/// Parse a decimal number at position `i`, exactly as [`parse_uint`] reads
/// the suffix from `i`.
pub fn read_uint(s: &Vec<u8>, i: usize, max: u32) -> (r: Option<(u32, usize)>)
    requires
        i <= s@.len(),
    ensures
        match parse_uint(s@.skip(i as int), max as int) {
            Some(vk) => r == Some(((vk.0 as u32), ((i + vk.1) as usize))) && 0 <= vk.0 <= max
                && i + vk.1 <= s@.len() && 1 <= vk.1 <= 10,
            None => r is None,
        },
{
    let ghost t = s@.skip(i as int);
    // measure the digit run
    let mut j: usize = i;
    while j < s.len() && j - i <= 10 && s[j] >= 0x30 && s[j] <= 0x39
        invariant
            i <= j <= s@.len(),
            j - i <= 11,
            t == s@.skip(i as int),
            forall|x: int| 0 <= x < j - i ==> is_digit(#[trigger] t[x]),
            digit_run(t) == (j - i) + digit_run(s@.skip(j as int)),
        decreases s@.len() - j,
    {
        proof {
            assert(s@.skip(j as int)[0] == s@[j as int]);
            assert(s@.skip(j as int).skip(1) =~= s@.skip(j as int + 1));
            assert(digit_run(s@.skip(j as int)) == 1 + digit_run(s@.skip(j as int + 1)));
            assert(t[j - i] == s@[j as int]);
        }
        j = j + 1;
    }
    proof {
        if j == s@.len() {
            assert(s@.skip(j as int).len() == 0);
            assert(digit_run(s@.skip(j as int)) == 0);
        } else if !(j - i <= 10) {
        } else {
            assert(s@.skip(j as int)[0] == s@[j as int]);
            assert(!is_digit(s@.skip(j as int)[0]));
            assert(digit_run(s@.skip(j as int)) == 0);
        }
    }
    let run = j - i;
    if run == 0 || run > 10 {
        proof {
            if run > 10 {
                lemma_digit_run_nonneg(s@.skip(j as int));
                assert(digit_run(t) > 10);
            } else {
                assert(digit_run(t) == 0);
            }
        }
        return None;
    }
    proof {
        assert(digit_run(t) == run);
    }
    // accumulate the value
    let mut acc: u64 = 0;
    let mut k: usize = i;
    while k < j
        invariant
            i <= k <= j <= s@.len(),
            j - i <= 10,
            t == s@.skip(i as int),
            forall|x: int| 0 <= x < j - i ==> is_digit(#[trigger] t[x]),
            acc == dec_val(t.take(k - i)),
        decreases j - k,
    {
        proof {
            assert(t[k - i] == s@[k as int]);
            assert(is_digit(t[k - i]));
            assert(forall|x: int| 0 <= x < t.take(k - i).len() ==> is_digit(
                #[trigger] t.take(k - i)[x],
            ));
            lemma_dec_val_bound(t.take(k - i));
            lemma_pow10();
            vstd::arithmetic::power::lemma_pow_increases(10, (k - i) as nat, 9);
            assert(acc < 1000000000);
            assert(t.take(k - i + 1).drop_last() =~= t.take(k - i));
            assert(t.take(k - i + 1).last() == t[k - i]);
        }
        let d = s[k] - 0x30;
        acc = acc * 10 + (d as u64);
        k = k + 1;
    }
    proof {
        assert(t.take(j as int - i) == t.take(run as int));
    }
    if acc > (max as u64) {
        None
    } else {
        Some((acc as u32, j))
    }
}

/// A digit string's value is bounded by 10 to its length.
proof fn lemma_dec_val_bound(s: Seq<u8>)
    requires
        forall|i: int| 0 <= i < s.len() ==> is_digit(#[trigger] s[i]),
    ensures
        0 <= dec_val(s),
        dec_val(s) < vstd::arithmetic::power::pow(10, s.len()),
    decreases s.len(),
{
    vstd::arithmetic::power::lemma_pow_positive(10, s.len());
    if s.len() > 0 {
        assert(forall|i: int| 0 <= i < s.drop_last().len() ==> is_digit(
            #[trigger] s.drop_last()[i],
        ));
        lemma_dec_val_bound(s.drop_last());
        vstd::arithmetic::power::lemma_pow1(10);
        vstd::arithmetic::power::lemma_pow_adds(10, 1, (s.len() - 1) as nat);
    }
}

/// Relies on String::from_utf8: it succeeds exactly on valid UTF-8 input
/// and returns the string whose bytes are that input.
#[verifier::external_body]
pub fn bytes_to_string(v: Vec<u8>) -> (r: Option<String>)
    ensures
        r is Some <==> vstd::utf8::valid_utf8(v@),
        r matches Some(s) ==> vstd::utf8::encode_utf8(s@) == v@,
{
    match String::from_utf8(v) {
        Ok(s) => Some(s),
        Err(_) => None,
    }
}

/// A string's UTF-8 bytes, as a vector.
pub fn string_to_bytes(s: &str) -> (r: Vec<u8>)
    ensures
        r@ == vstd::utf8::encode_utf8(s@),
{
    s.as_bytes_vec()
}

} // verus!
