//! From a colour to the text of a pixel.
//!
//! An image goes out as plain text: a header with the format's tag, the
//! width and height and the largest channel value, then one line per pixel
//! with its red, green and blue as integers from 0 to 255.

use vstd::prelude::*;
use vstd::arithmetic::power2::pow2;
use vstd::bits::lemma_u64_shr_is_div;
use crate::interval::Interval;
use crate::material::Colour;
use crate::scalar::Scalar;

verus! {

/// Two to the power of 52: the weight of the leading bit that a binary64
/// number does not store.
pub const HIDDEN_BIT: u64 = 0x0010_0000_0000_0000;

/// The pattern of the largest intensity that goes out: the binary64 value
/// nearest to 999 thousandths.
pub const BRIGHTEST_BITS: u64 = 0x3fef_f7ce_d916_872b;

/// The interval that intensities are clamped to.
pub open spec fn intensity() -> Interval {
    Interval { min: Scalar { bits: 0 }, max: Scalar { bits: BRIGHTEST_BITS } }
}

/// 256 times a number, rounded down, for a number from zero up to but not
/// including one; 0 for what is no number or negative, 255 from one on.
///
/// A binary64 number with the exponent field `e > 0` and the fraction field
/// `m` is `(2^52 + m) * 2^(e - 1075)`, so 256 times it is `2^52 + m` divided
/// by `2^(1067 - e)`. Below `e = 1004` that is less than one.
pub open spec fn scaled(x: Scalar) -> int {
    let e = x.magnitude() / (HIDDEN_BIT as int);
    let m = x.magnitude() % (HIDDEN_BIT as int);
    if x.is_nan() || x.is_negative() || e < 1004 {
        0
    } else if e >= 1023 {
        255
    } else {
        (HIDDEN_BIT + m) / (pow2((1067 - e) as nat) as int)
    }
}

/// The channel value of an intensity: the intensity clamped, times 256,
/// rounded down.
pub open spec fn channel(c: Scalar) -> int {
    scaled(intensity().spec_clamp(c))
}

/// The decimal digits of a number, as ASCII.
pub open spec fn digits(n: nat) -> Seq<u8>
    decreases n,
{
    if n < 10 {
        seq![(48 + n) as u8]
    } else {
        digits(n / 10).push((48 + n % 10) as u8)
    }
}

/// A whole number in decimal, with a minus sign where it is negative.
pub open spec fn decimal(v: int) -> Seq<u8> {
    if v < 0 {
        seq![45u8] + digits((-v) as nat)
    } else {
        digits(v as nat)
    }
}

/// The line of one pixel: three numbers with a space between and a line
/// feed after.
pub open spec fn pixel_line(r: int, g: int, b: int) -> Seq<u8> {
    decimal(r) + seq![32u8] + decimal(g) + seq![32u8] + decimal(b) + seq![10u8]
}

/// The header: the tag of the plain pixmap format, then width and height,
/// then the largest channel value, 255.
pub open spec fn header(width: int, height: int) -> Seq<u8> {
    seq![80u8, 51u8, 10u8] + decimal(width) + seq![32u8] + decimal(height) + seq![
        10u8,
        50u8,
        53u8,
        53u8,
        10u8,
    ]
}

/// The lines of a sequence of pixels, one after the other.
pub open spec fn pixel_lines(pixels: Seq<Colour>) -> Seq<u8>
    decreases pixels.len(),
{
    if pixels.len() == 0 {
        Seq::empty()
    } else {
        pixel_lines(pixels.drop_last()) + pixel_line(
            channel(pixels.last().x),
            channel(pixels.last().y),
            channel(pixels.last().z),
        )
    }
}

/// The channel value of an intensity that was already brought to display
/// space: from 0 to 255.
pub fn quantize(c: Scalar) -> (q: u8)
    ensures
        q == channel(c),
{
    let range = Interval::new(Scalar::zero(), Scalar::from_bits(BRIGHTEST_BITS));
    let x = range.clamp(c);
    if x.is_nan_value() || x.bits >= crate::scalar::SIGN_BIT {
        return 0;
    }
    let e: u64 = x.bits / HIDDEN_BIT;
    let m: u64 = x.bits % HIDDEN_BIT;
    if e < 1004 {
        return 0;
    }
    if e >= 1023 {
        return 255;
    }
    let shift: u64 = 1067 - e;
    let v: u64 = HIDDEN_BIT + m;
    let q: u64 = v >> shift;
    proof {
        lemma_u64_shr_is_div(v, shift);
        assert(v < 0x0020_0000_0000_0000 && 45 <= shift < 64 ==> (v >> shift) < 256) by (bit_vector);
    }
    q as u8
}

/// Appends the decimal digits of `n`.
pub fn push_digits(out: &mut Vec<u8>, n: u32)
    ensures
        final(out)@ == old(out)@ + digits(n as nat),
    decreases n,
{
    if n >= 10 {
        push_digits(out, n / 10);
    }
    out.push((48 + n % 10) as u8);
    assert(out@ =~= old(out)@ + digits(n as nat));
}

/// Appends a whole number in decimal.
pub fn push_decimal(out: &mut Vec<u8>, v: i32)
    ensures
        final(out)@ == old(out)@ + decimal(v as int),
{
    if v < 0 {
        out.push(45);
        let magnitude: u32 = (-(v as i64)) as u32;
        push_digits(out, magnitude);
    } else {
        push_digits(out, v as u32);
    }
    assert(out@ =~= old(out)@ + decimal(v as int));
}

/// Appends the line of one pixel. `colour` holds the pixel's three
/// intensities in display space: the mean of its samples, gamma-corrected.
pub fn write_colour(out: &mut Vec<u8>, colour: Colour)
    ensures
        final(out)@ == old(out)@ + pixel_line(
            channel(colour.x),
            channel(colour.y),
            channel(colour.z),
        ),
{
    let r = quantize(colour.x);
    let g = quantize(colour.y);
    let b = quantize(colour.z);
    push_digits(out, r as u32);
    out.push(32);
    push_digits(out, g as u32);
    out.push(32);
    push_digits(out, b as u32);
    out.push(10);
    assert(out@ =~= old(out)@ + pixel_line(r as int, g as int, b as int));
}

/// Appends the header of an image of the given size.
pub fn write_header(out: &mut Vec<u8>, width: i32, height: i32)
    ensures
        final(out)@ == old(out)@ + header(width as int, height as int),
{
    out.push(80);
    out.push(51);
    out.push(10);
    push_decimal(out, width);
    out.push(32);
    push_decimal(out, height);
    out.push(10);
    out.push(50);
    out.push(53);
    out.push(53);
    out.push(10);
    assert(out@ =~= old(out)@ + header(width as int, height as int));
}

/// A channel value is a whole number from 0 to 255.
pub proof fn lemma_channel_range(c: Scalar)
    ensures
        0 <= channel(c) <= 255,
{
    let x = intensity().spec_clamp(c);
    let e = x.magnitude() / (HIDDEN_BIT as int);
    let m = x.magnitude() % (HIDDEN_BIT as int);
    if !(x.is_nan() || x.is_negative() || e < 1004) && e < 1023 {
        let shift = (1067 - e) as u64;
        let v = (HIDDEN_BIT + m) as u64;
        lemma_u64_shr_is_div(v, shift);
        assert(v < 0x0020_0000_0000_0000 && 45 <= shift < 64 ==> (v >> shift) < 256) by (bit_vector);
    }
}

/// Between two patterns of numbers from 2^-19 up to but not including one,
/// the larger number has the larger scaled value.
proof fn lemma_shift_is_monotone(a: u64, b: u64)
    requires
        1004 * HIDDEN_BIT <= a <= b < 1023 * HIDDEN_BIT,
    ensures
        (HIDDEN_BIT + a % HIDDEN_BIT) as u64 >> ((1067 - a / HIDDEN_BIT) as u64) <= (HIDDEN_BIT + b
            % HIDDEN_BIT) as u64 >> ((1067 - b / HIDDEN_BIT) as u64),
{
    assert(0x3ec0_0000_0000_0000 <= a <= b < 0x3ff0_0000_0000_0000 ==> ((0x0010_0000_0000_0000u64 + a
        % 0x0010_0000_0000_0000u64) as u64 >> ((1067 - a / 0x0010_0000_0000_0000u64) as u64)) <= ((
    0x0010_0000_0000_0000u64 + b % 0x0010_0000_0000_0000u64) as u64 >> ((1067 - b
        / 0x0010_0000_0000_0000u64) as u64))) by (bit_vector);
}

/// A brighter intensity never gets a smaller channel value.
pub proof fn lemma_channel_is_monotone(darker: Scalar, brighter: Scalar)
    requires
        darker.spec_le(brighter),
    ensures
        channel(darker) <= channel(brighter),
{
    let low = intensity().spec_clamp(darker);
    let high = intensity().spec_clamp(brighter);
    lemma_channel_range(darker);
    lemma_channel_range(brighter);
    assert(low.rank() <= high.rank());
    let e = low.magnitude() / (HIDDEN_BIT as int);
    if !low.is_negative() && e >= 1004 {
        assert(!high.is_negative());
        let a = low.bits;
        let b = high.bits;
        assert(a <= b < 1023 * HIDDEN_BIT);
        lemma_shift_is_monotone(a, b);
        lemma_u64_shr_is_div((HIDDEN_BIT + a % HIDDEN_BIT) as u64, (1067 - a / HIDDEN_BIT) as u64);
        lemma_u64_shr_is_div((HIDDEN_BIT + b % HIDDEN_BIT) as u64, (1067 - b / HIDDEN_BIT) as u64);
    }
}

} // verus!
