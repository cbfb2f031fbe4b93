//! The binary raster format the finished image is written in.
//!
//! A raster is an ASCII header `P6 <width> <height> 255 ` followed by the
//! pixel bytes, three per pixel, row-major. The encoder is specified byte
//! for byte: the output is exactly the header followed by the pixel data.

use vstd::prelude::*;

verus! {

/// The ASCII decimal digits of `n`, most significant first.
pub open spec fn decimal_digits(n: nat) -> Seq<u8>
    decreases n,
{
    if n < 10 {
        seq![(48 + n) as u8]
    } else {
        decimal_digits(n / 10).push((48 + n % 10) as u8)
    }
}

/// The header that announces a raster of the given size: the magic `P6`,
/// the two dimensions in decimal, and the maximum channel value 255, all
/// separated by single spaces and closed by one.
pub open spec fn ppm_header(width: u32, height: u32) -> Seq<u8> {
    seq![80u8, 54u8, 32u8] + decimal_digits(width as nat) + seq![32u8] + decimal_digits(
        height as nat,
    ) + seq![32u8, 50u8, 53u8, 53u8, 32u8]
}

/// Write `n` in ASCII decimal.
pub fn format_decimal(n: u32) -> (r: Vec<u8>)
    ensures
        r@ == decimal_digits(n as nat),
    decreases n,
{
    if n < 10 {
        let mut r: Vec<u8> = Vec::new();
        r.push(48 + n as u8);
        proof {
            assert(r@ =~= decimal_digits(n as nat));
        }
        r
    } else {
        let mut r = format_decimal(n / 10);
        r.push(48 + (n % 10) as u8);
        proof {
            assert(r@ =~= decimal_digits(n as nat));
        }
        r
    }
}

/// Encode an image as a binary raster: the header for its dimensions,
/// then the given pixel bytes unchanged.
pub fn ppm_encode(width: u32, height: u32, pixels: &Vec<u8>) -> (r: Vec<u8>)
    requires
        pixels@.len() == 3 * (width as int) * (height as int),
    ensures
        r@ == ppm_header(width, height) + pixels@,
{
    let mut out: Vec<u8> = Vec::new();
    out.push(80);
    out.push(54);
    out.push(32);
    let mut digits = format_decimal(width);
    out.append(&mut digits);
    out.push(32);
    let mut digits = format_decimal(height);
    out.append(&mut digits);
    out.push(32);
    out.push(50);
    out.push(53);
    out.push(53);
    out.push(32);
    proof {
        assert(out@ =~= ppm_header(width, height));
    }
    let mut i: usize = 0;
    while i < pixels.len()
        invariant
            i <= pixels.len(),
            out@ == ppm_header(width, height) + pixels@.subrange(0, i as int),
        decreases pixels.len() - i,
    {
        out.push(pixels[i]);
        proof {
            assert(out@ =~= ppm_header(width, height) + pixels@.subrange(0, i + 1));
        }
        i = i + 1;
    }
    proof {
        assert(pixels@.subrange(0, pixels@.len() as int) =~= pixels@);
    }
    out
}

/// The size of an encoded raster: the header, plus three bytes for each of
/// the `width * height` pixels.
pub proof fn lemma_ppm_size(width: u32, height: u32, pixels: Seq<u8>)
    requires
        pixels.len() == 3 * (width as int) * (height as int),
    ensures
        (ppm_header(width, height) + pixels).len() == ppm_header(width, height).len() + 3 * (
        width as int) * (height as int),
{
}

} // verus!
