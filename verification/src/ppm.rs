//! The plain-text pixel format: a header with the dimensions and the largest
//! channel value, then one `r g b` triple for each pixel, row by row.

use vstd::prelude::*;
use crate::color::Color;

verus! {

/// An image ready to be written out.
pub struct PPMFile {
    pub buf: Vec<Color>,
    pub height: usize,
    pub width: usize,
    pub max: u8,
}

/// The decimal digits of `n` as ASCII, most significant first.
pub open spec fn digits(n: nat) -> Seq<u8>
    decreases n,
{
    if n < 10 {
        seq![(48 + n) as u8]
    } else {
        digits(n / 10).push((48 + n % 10) as u8)
    }
}

/// One pixel: its three channels in decimal, separated by single spaces.
pub open spec fn pixel_text(c: Color) -> Seq<u8> {
    digits(c.r as nat) + seq![32u8] + digits(c.g as nat) + seq![32u8] + digits(c.b as nat)
}

/// What follows pixel `i`: a newline at the end of a row, a space within it.
pub open spec fn separator(i: int, width: int) -> u8 {
    if width > 0 && (i + 1) % width == 0 {
        10u8
    } else {
        32u8
    }
}

/// The pixels of `buf` in order, each followed by its separator.
pub open spec fn body_text(buf: Seq<Color>, width: int) -> Seq<u8>
    decreases buf.len(),
{
    if buf.len() == 0 {
        Seq::<u8>::empty()
    } else {
        body_text(buf.drop_last(), width) + pixel_text(buf.last()) + seq![
            separator(buf.len() - 1, width),
        ]
    }
}

/// The three header lines: `P3`, width and height, the largest channel value.
pub open spec fn header_text(width: nat, height: nat, max: nat) -> Seq<u8> {
    seq![80u8, 51u8, 10u8] + digits(width) + seq![32u8] + digits(height) + seq![10u8] + digits(max)
        + seq![10u8]
}

/// The whole file.
pub open spec fn ppm_text(buf: Seq<Color>, width: nat, height: nat, max: nat) -> Seq<u8> {
    header_text(width, height, max) + body_text(buf, width as int)
}

/// Appends the decimal digits of `n` to `out`.
pub fn push_decimal(out: &mut Vec<u8>, n: usize)
    ensures
        final(out)@ == old(out)@ + digits(n as nat),
    decreases n,
{
    if n >= 10 {
        push_decimal(out, n / 10);
    }
    let digit: u8 = (n % 10) as u8;
    out.push(48 + digit);
    proof {
        assert(out@ =~= old(out)@ + digits(n as nat));
    }
}

/// Appends one pixel to `out`.
fn push_pixel(out: &mut Vec<u8>, c: &Color)
    ensures
        final(out)@ == old(out)@ + pixel_text(*c),
{
    push_decimal(out, c.r as usize);
    out.push(32);
    push_decimal(out, c.g as usize);
    out.push(32);
    push_decimal(out, c.b as usize);
    proof {
        assert(out@ =~= old(out)@ + pixel_text(*c));
    }
}

/// Appends the header and the pixels of `buf` to `file`.
pub fn write_ppm(file: &mut Vec<u8>, buf: &Vec<Color>, width: usize, height: usize, max: u8)
    ensures
        final(file)@ == old(file)@ + ppm_text(buf@, width as nat, height as nat, max as nat),
{
    file.push(80);
    file.push(51);
    file.push(10);
    push_decimal(file, width);
    file.push(32);
    push_decimal(file, height);
    file.push(10);
    push_decimal(file, max as usize);
    file.push(10);
    let ghost head = old(file)@ + header_text(width as nat, height as nat, max as nat);
    assert(file@ =~= head);
    let mut i: usize = 0;
    while i < buf.len()
        invariant
            i <= buf.len(),
            file@ == head + body_text(buf@.take(i as int), width as int),
        decreases buf.len() - i,
    {
        let ghost before = file@;
        push_pixel(file, &buf[i]);
        if width > 0 && (i + 1) % width == 0 {
            file.push(10);
        } else {
            file.push(32);
        }
        proof {
            let done = buf@.take(i + 1);
            assert(done.drop_last() =~= buf@.take(i as int));
            assert(done.last() == buf[i as int]);
            assert(file@ =~= head + body_text(done, width as int));
        }
        i += 1;
    }
    proof {
        assert(buf@.take(i as int) =~= buf@);
        assert(file@ =~= old(file)@ + ppm_text(buf@, width as nat, height as nat, max as nat));
    }
}

impl PPMFile {
    /// The text of the file.
    pub open spec fn text(&self) -> Seq<u8> {
        ppm_text(self.buf@, self.width as nat, self.height as nat, self.max as nat)
    }

    /// Appends the file to `file`: the header lines `P3`, `<width> <height>`
    /// and `<max>`, then the pixels row by row, separated by spaces within a
    /// row, each row closed by a newline.
    pub fn write_to_file(&self, file: &mut Vec<u8>)
        ensures
            final(file)@ == old(file)@ + self.text(),
    {
        write_ppm(file, &self.buf, self.width, self.height, self.max);
    }
}

} // verus!
