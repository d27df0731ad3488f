//! Number formatting for the progress overlay.
//!
//! The overlay prints its counters in decimal, and the big ones with
//! English-style thousands grouping.  Plain decimal conversion is verified
//! here against a digit-by-digit specification; the grouped form is stated
//! just as exactly and produced by the num-format crate through a trusted
//! wrapper.  Everything works in bytes, which is what the overlay
//! rasterizer consumes.

use num_format::{Locale, ToFormattedString};
use vstd::prelude::*;
use vstd::string::StringSliceAdditionalSpecFns;

verus! {

/// The ASCII byte of one decimal digit.
pub open spec fn digit_byte(d: int) -> u8 {
    (48 + d) as u8
}

/// The decimal digits of a nonnegative number, most significant first.
pub open spec fn decimal_bytes(n: int) -> Seq<u8>
    decreases n,
{
    if n < 10 {
        seq![digit_byte(n)]
    } else {
        decimal_bytes(n / 10).push(digit_byte(n % 10))
    }
}

/// Formats a number in decimal, exactly as `decimal_bytes` spells it.
pub fn format_u64_bytes(n: u64) -> (out: Vec<u8>)
    ensures
        out@ == decimal_bytes(n as int),
{
    let mut low_first: Vec<u8> = Vec::new();
    let mut m: u64 = n;
    while m >= 10
        invariant
            decimal_bytes(n as int) =~= decimal_bytes(m as int) + low_first@.reverse(),
        decreases m,
    {
        let ghost low_before = low_first@;
        low_first.push(48 + (m % 10) as u8);
        proof {
            assert(low_first@.reverse() =~= seq![digit_byte(m as int % 10)]
                + low_before.reverse());
            assert(decimal_bytes(m as int) == decimal_bytes(m as int / 10).push(
                digit_byte(m as int % 10),
            ));
            assert(decimal_bytes(m as int / 10) + low_first@.reverse() =~= decimal_bytes(m as int)
                + low_before.reverse());
        }
        m = m / 10;
    }
    let mut out: Vec<u8> = Vec::new();
    out.push(48 + (m % 10) as u8);
    proof {
        assert(m as int % 10 == m as int);
        assert(out@ =~= decimal_bytes(m as int));
    }
    let count = low_first.len();
    let mut j: usize = 0;
    while j < count
        invariant
            j <= count,
            count == low_first@.len(),
            out@ =~= decimal_bytes(m as int) + low_first@.reverse().take(j as int),
        decreases count - j,
    {
        let ghost out_before = out@;
        out.push(low_first[count - 1 - j]);
        proof {
            assert(low_first@.reverse()[j as int] == low_first@[count - 1 - j as int]);
            assert(low_first@.reverse().take(j as int + 1) =~= low_first@.reverse().take(
                j as int,
            ).push(low_first@.reverse()[j as int]));
        }
        j = j + 1;
    }
    proof {
        assert(low_first@.reverse().take(count as int) =~= low_first@.reverse());
    }
    out
}

/// The decimal digits padded with leading zeroes to at least `width`
/// places.
pub open spec fn padded_decimal_bytes(n: int, width: int) -> Seq<u8> {
    let digits = decimal_bytes(n);
    if digits.len() >= width {
        digits
    } else {
        Seq::new((width - digits.len()) as nat, |i: int| 48u8) + digits
    }
}

/// Formats a number in decimal with leading zeroes to at least `width`
/// places, as the overlay's fixed-width fields want it.
pub fn format_u64_padded_bytes(n: u64, width: usize) -> (out: Vec<u8>)
    ensures
        out@ == padded_decimal_bytes(n as int, width as int),
{
    let digits = format_u64_bytes(n);
    if digits.len() >= width {
        digits
    } else {
        let pad = width - digits.len();
        let mut out: Vec<u8> = Vec::new();
        let mut i: usize = 0;
        while i < pad
            invariant
                i <= pad,
                out@ =~= Seq::new(i as nat, |k: int| 48u8),
            decreases pad - i,
        {
            proof {
                assert(Seq::new(i as nat + 1, |k: int| 48u8) =~= Seq::new(
                    i as nat,
                    |k: int| 48u8,
                ).push(48u8));
            }
            out.push(48);
            i = i + 1;
        }
        let ghost zeroes = out@;
        let mut j: usize = 0;
        let dcount = digits.len();
        while j < dcount
            invariant
                j <= dcount,
                dcount == digits@.len(),
                out@ =~= zeroes + digits@.take(j as int),
            decreases dcount - j,
        {
            out.push(digits[j]);
            proof {
                assert(digits@.take(j as int + 1) =~= digits@.take(j as int).push(
                    digits@[j as int],
                ));
            }
            j = j + 1;
        }
        proof {
            assert(digits@.take(dcount as int) =~= digits@);
            assert(zeroes + digits@ =~= padded_decimal_bytes(n as int, width as int));
        }
        out
    }
}

/// Digits grouped in threes from the right, separated by commas.
pub open spec fn grouped_in_threes(digits: Seq<u8>) -> Seq<u8>
    decreases digits.len(),
{
    if digits.len() <= 3 {
        digits
    } else {
        grouped_in_threes(digits.take(digits.len() - 3)) + seq![44u8] + digits.skip(
            digits.len() - 3,
        )
    }
}

/// The number as British English prints it: its decimal digits grouped in
/// threes with commas.
pub open spec fn en_gb_grouped(n: u64) -> Seq<u8> {
    grouped_in_threes(decimal_bytes(n as int))
}

/// Relies on num-format's `ToFormattedString::to_formatted_string` with
/// `Locale::en_GB`: the decimal digits of the number grouped in threes
/// with comma separators, a function of the number alone.
#[verifier::external_body]
fn format_grouped(n: u64) -> (out: Vec<u8>)
    ensures
        out@ == en_gb_grouped(n),
{
    n.to_formatted_string(&Locale::en_GB).into_bytes()
}

/// Appends a byte slice to a buffer.
fn append_byte_slice(out: &mut Vec<u8>, s: &[u8])
    ensures
        final(out)@ == old(out)@ + s@,
{
    let n = s.len();
    let mut i: usize = 0;
    while i < n
        invariant
            i <= n,
            n == s@.len(),
            out@ =~= old(out)@ + s@.take(i as int),
        decreases n - i,
    {
        out.push(s[i]);
        proof {
            assert(s@.take(i as int + 1) =~= s@.take(i as int).push(s@[i as int]));
        }
        i = i + 1;
    }
    proof {
        assert(s@.take(n as int) =~= s@);
        assert(out@ =~= old(out)@ + s@);
    }
}

/// The ray-throughput line of the overlay: the totals grouped with
/// commas, tab-separated.
pub fn rays_line_bytes(total_rays: u64, rays_per_second: u64) -> (out: Vec<u8>)
    ensures
        out@ == "Rays:\t".spec_bytes() + en_gb_grouped(total_rays) + "\t".spec_bytes()
            + en_gb_grouped(rays_per_second) + "/s".spec_bytes(),
{
    let mut out: Vec<u8> = Vec::new();
    append_byte_slice(&mut out, "Rays:\t".as_bytes());
    let grouped_total = format_grouped(total_rays);
    append_byte_slice(&mut out, grouped_total.as_slice());
    append_byte_slice(&mut out, "\t".as_bytes());
    let grouped_rate = format_grouped(rays_per_second);
    append_byte_slice(&mut out, grouped_rate.as_slice());
    append_byte_slice(&mut out, "/s".as_bytes());
    proof {
        assert(out@ =~= "Rays:\t".spec_bytes() + en_gb_grouped(total_rays) + "\t".spec_bytes()
            + en_gb_grouped(rays_per_second) + "/s".spec_bytes());
    }
    out
}

} // verus!
