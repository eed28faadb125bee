//! The canvas: a fixed-size row-major pixel grid with scaled-on-write
//! color storage and a plain-text PPM encoder.

use vstd::prelude::*;
use vstd::std_specs::vec::vec_index_mut;

use crate::color::{display_of, scale_color, Color, Pixel};
use crate::ppm::{
    all_ascii, body_bytes_upto, header_bytes, lemma_ppm_ascii, lemma_ppm_ends_newline, ppm_bytes,
    ppm_chars, push_decimal, push_token, row_bytes, row_step, row_tokens, MAX_LINE_LENGTH,
    NEWLINE, SPACE,
};

verus! {

/// What can go wrong when building or writing to a canvas. Encoding has no
/// error path.
#[derive(Clone, Copy, Debug, PartialEq, Eq, Structural)]
pub enum CanvasError {
    /// Construction was asked for a zero width or height.
    InvalidDimensions,
    /// A write addressed a column or row outside the grid.
    OutOfBounds,
}

/// A `width` by `height` grid of pixels, stored row-major in one
/// contiguously owned buffer indexed by `row * width + column`. Every cell
/// holds a display value already scaled and clamped to `0..=255` per
/// channel; a fresh canvas is all black.
#[derive(Debug)]
pub struct Canvas {
    width: u32,
    height: u32,
    pixels: Vec<Pixel>,
}

impl Canvas {
    /// The width, in pixels.
    pub closed spec fn spec_width(&self) -> nat {
        self.width as nat
    }

    /// The height, in pixels.
    pub closed spec fn spec_height(&self) -> nat {
        self.height as nat
    }

    /// The stored grid, row-major.
    pub closed spec fn grid(&self) -> Seq<Pixel> {
        self.pixels@
    }

    /// Well-formed: positive dimensions and a fully allocated grid.
    pub open spec fn wf(&self) -> bool {
        self.spec_width() >= 1 && self.spec_height() >= 1 && self.grid().len()
            == self.spec_width() * self.spec_height()
    }

    /// Builds a `width` by `height` canvas with every pixel black, or
    /// reports `InvalidDimensions` exactly when either dimension is zero.
    pub fn new(width: u32, height: u32) -> (result: Result<Canvas, CanvasError>)
        requires
            width as int * height as int <= usize::MAX as int,
        ensures
            match result {
                Ok(c) => width >= 1 && height >= 1 && c.wf() && c.spec_width() == width
                    && c.spec_height() == height && forall|i: int|
                    0 <= i < c.grid().len() ==> c.grid()[i] == (Pixel { r: 0, g: 0, b: 0 }),
                Err(e) => e == CanvasError::InvalidDimensions && (width == 0 || height == 0),
            },
    {
        if width == 0 || height == 0 {
            return Err(CanvasError::InvalidDimensions);
        }
        let n: usize = (width as usize) * (height as usize);
        let pixels: Vec<Pixel> = vec![Pixel { r: 0, g: 0, b: 0 };n];
        Ok(Canvas { width, height, pixels })
    }

    /// The width, in pixels.
    pub fn width(&self) -> (w: u32)
        ensures
            w == self.spec_width(),
    {
        self.width
    }

    /// The height, in pixels.
    pub fn height(&self) -> (h: u32)
        ensures
            h == self.spec_height(),
    {
        self.height
    }

    /// Scales and clamps the sample and overwrites the cell at the given
    /// column (the fast-varying horizontal axis) and row (the slow-varying
    /// vertical axis), or reports `OutOfBounds` exactly when the address
    /// lies outside the grid, leaving it untouched.
    pub fn write_pixel(&mut self, column: u32, row: u32, color: Color) -> (result: Result<
        (),
        CanvasError,
    >)
        requires
            old(self).wf(),
        ensures
            final(self).wf(),
            final(self).spec_width() == old(self).spec_width(),
            final(self).spec_height() == old(self).spec_height(),
            match result {
                Ok(()) => column < old(self).spec_width() && row < old(self).spec_height()
                    && final(self).grid() == old(self).grid().update(
                    row as int * old(self).spec_width() as int + column as int,
                    (Pixel {
                        r: display_of(color.r as int),
                        g: display_of(color.g as int),
                        b: display_of(color.b as int),
                    }),
                ),
                Err(e) => e == CanvasError::OutOfBounds && (column >= old(self).spec_width()
                    || row >= old(self).spec_height()) && final(self).grid() == old(self).grid(),
            },
    {
        if column >= self.width || row >= self.height {
            return Err(CanvasError::OutOfBounds);
        }
        let scaled: Pixel = scale_color(color);
        proof {
            assert((row as int) * (self.width as int) + (column as int) < (self.width as int)
                * (self.height as int)) by (nonlinear_arith)
                requires
                    (row as int) < (self.height as int),
                    (column as int) < (self.width as int),
                    (row as int) >= 0,
                    (column as int) >= 0,
                    (self.width as int) >= 1,
            ;
        }
        let n: usize = self.pixels.len();
        let idx: usize = (row as usize) * (self.width as usize) + (column as usize);
        assert(idx < n);
        let cell: &mut Pixel = vec_index_mut(&mut self.pixels, idx);
        *cell = scaled;
        Ok(())
    }

    /// Encodes the whole canvas as plain-text PPM: the three header lines
    /// `P3`, `"<width> <height>"` and `255`, then the wrapped body, rows in
    /// storage order, ending in exactly one trailing newline. Total: any
    /// well-formed canvas encodes.
    pub fn to_ppm(&self) -> (r: String)
        requires
            self.wf(),
        ensures
            r@ == ppm_chars(self.grid(), self.spec_width(), self.spec_height()),
            r@.len() > 0,
            r@.last() == '\n',
    {
        let ghost w: nat = self.spec_width();
        let ghost h: nat = self.spec_height();
        let ghost pix: Seq<Pixel> = self.grid();
        let mut out: Vec<u8> = Vec::new();
        out.push(80);
        out.push(51);
        out.push(NEWLINE);
        push_decimal(&mut out, self.width);
        out.push(SPACE);
        push_decimal(&mut out, self.height);
        out.push(NEWLINE);
        out.push(50);
        out.push(53);
        out.push(53);
        out.push(NEWLINE);
        proof {
            assert(out@ =~= header_bytes(w, h));
        }
        let mut row: u32 = 0;
        while row < self.height
            invariant
                self.wf(),
                w == self.spec_width(),
                h == self.spec_height(),
                pix == self.grid(),
                row <= self.height,
                out@ == header_bytes(w, h) + body_bytes_upto(pix, w, row as int),
            decreases self.height - row,
        {
            let ghost toks: Seq<u8> = row_tokens(pix, w, row as int);
            proof {
                assert((row as int) * (w as int) + (w as int) == ((row as int) + 1) * (w as int)
                    && 0 <= (row as int) * (w as int) && ((row as int) + 1) * (w as int) <= (
                w as int) * (h as int)) by (nonlinear_arith)
                    requires
                        0 <= (row as int) < (h as int),
                        (w as int) >= 1,
                ;
                assert(toks.len() == 3 * w);
            }
            let mut line: Vec<u8> = Vec::new();
            let mut line_length: u32 = 0;
            let mut col: u32 = 0;
            while col < self.width
                invariant
                    self.wf(),
                    w == self.spec_width(),
                    h == self.spec_height(),
                    pix == self.grid(),
                    row < self.height,
                    col <= self.width,
                    toks == row_tokens(pix, w, row as int),
                    toks.len() == 3 * w,
                    0 <= (row as int) * (w as int),
                    (row as int) * (w as int) + (w as int) == ((row as int) + 1) * (w as int),
                    ((row as int) + 1) * (w as int) <= pix.len(),
                    line_length <= MAX_LINE_LENGTH,
                    row_step(toks, 3 * col as int, line_length as int, line@) == row_bytes(toks),
                decreases self.width - col,
            {
                proof {
                    assert((row as int) * (w as int) + (col as int) < pix.len() && (row as int)
                        * (w as int) + (col as int) < (w as int) * (h as int)) by (nonlinear_arith)
                        requires
                            0 <= (row as int) < (h as int),
                            0 <= (col as int) < (w as int),
                            pix.len() == (w as int) * (h as int),
                    ;
                }
                let n: usize = self.pixels.len();
                let idx: usize = (row as usize) * (self.width as usize) + (col as usize);
                assert(idx < n);
                let p: Pixel = self.pixels[idx];
                let ghost j0: int = 3 * col as int;
                proof {
                    let sub = pix.subrange((row as int) * (w as int), ((row as int) + 1) * (
                    w as int));
                    assert((3 * (col as int)) / 3 == (col as int) && (3 * (col as int)) % 3 == 0
                        && (3 * (col as int) + 1) / 3 == (col as int) && (3 * (col as int) + 1) % 3
                        == 1 && (3 * (col as int) + 2) / 3 == (col as int) && (3 * (col as int)
                        + 2) % 3 == 2) by (nonlinear_arith)
                        requires
                            (col as int) >= 0,
                    ;
                    assert(sub[col as int] == pix[(row as int) * (w as int) + (col as int)]);
                    assert(toks[j0] == p.r);
                    assert(toks[j0 + 1] == p.g);
                    assert(toks[j0 + 2] == p.b);
                }
                push_token(&mut line, &mut line_length, p.r, false);
                proof {
                    assert(row_step(toks, j0 + 1, line_length as int, line@) == row_bytes(toks));
                }
                push_token(&mut line, &mut line_length, p.g, false);
                proof {
                    assert(row_step(toks, j0 + 2, line_length as int, line@) == row_bytes(toks));
                }
                let last: bool = col == self.width - 1;
                push_token(&mut line, &mut line_length, p.b, last);
                proof {
                    assert(j0 + 2 == toks.len() - 1 <==> last);
                    assert(row_step(toks, j0 + 3, line_length as int, line@) == row_bytes(toks));
                }
                col = col + 1;
            }
            proof {
                assert(line@ == row_bytes(toks));
                assert(body_bytes_upto(pix, w, row as int + 1) == body_bytes_upto(
                    pix,
                    w,
                    row as int,
                ) + row_bytes(toks));
                assert(out@ + line@ =~= header_bytes(w, h) + body_bytes_upto(
                    pix,
                    w,
                    row as int + 1,
                ));
            }
            out.append(&mut line);
            row = row + 1;
        }
        proof {
            assert(out@ =~= ppm_bytes(pix, w, h));
            lemma_ppm_ascii(pix, w, h);
            lemma_ppm_ends_newline(pix, w, h);
        }
        let r: String = ascii_to_string(out);
        proof {
            assert(r@.last() == (NEWLINE as char));
            assert(NEWLINE as char == '\n');
        }
        r
    }
}

/// Relies on `String::from_utf8`: bytes below 128 are valid UTF-8 and
/// decode to one character per byte, each with the byte's code point.
#[verifier::external_body]
fn ascii_to_string(bytes: Vec<u8>) -> (r: String)
    requires
        all_ascii(bytes@),
    ensures
        r@ == bytes@.map_values(|b: u8| b as char),
{
    match String::from_utf8(bytes) {
        Ok(s) => s,
        Err(_) => String::new(),
    }
}

} // verus!
