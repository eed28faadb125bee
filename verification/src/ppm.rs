//! The plain-text PPM encoding: decimal numerals, the per-token
//! line-wrapping rule, and the byte-level specification of the header and
//! body that [`crate::canvas::Canvas::to_ppm`] produces.
//!
//! The body is built row by row. Within a row every channel value becomes a
//! decimal token. A running character count accumulates each token's length
//! plus one for the separator that would follow it; when the count goes past
//! [`MAX_LINE_LENGTH`] the pending separator is dropped, the line is ended,
//! and the count restarts at zero with the current token opening the next
//! line, uncounted. Each row ends with a newline of its own.

use vstd::prelude::*;

use crate::color::Pixel;

verus! {

/// ASCII newline.
pub const NEWLINE: u8 = 10;

/// ASCII space.
pub const SPACE: u8 = 32;

/// Character budget for one physical line of the PPM body.
pub const MAX_LINE_LENGTH: u32 = 70;

/// The decimal numeral of `n` as ASCII bytes, most significant digit first,
/// without leading zeros (`0` itself is the single byte `b'0'`).
pub open spec fn dec_digits(n: nat) -> Seq<u8>
    decreases n,
{
    if n < 10 {
        seq![(48 + n) as u8]
    } else {
        dec_digits(n / 10).push((48 + n % 10) as u8)
    }
}

/// The number that a sequence of ASCII digits denotes.
pub open spec fn dec_val(s: Seq<u8>) -> nat
    decreases s.len(),
{
    if s.len() == 0 {
        0
    } else {
        dec_val(s.drop_last()) * 10 + (if s.last() >= 48 {
            (s.last() - 48) as nat
        } else {
            0
        })
    }
}

/// `b` is an ASCII decimal digit.
pub open spec fn is_digit(b: u8) -> bool {
    48 <= b <= 57
}

/// Every byte of `s` is an ASCII decimal digit.
pub open spec fn all_digits(s: Seq<u8>) -> bool {
    forall|i: int| 0 <= i < s.len() ==> is_digit(s[i])
}

/// A decimal numeral is never empty and holds only digit bytes.
pub proof fn lemma_dec_digits_wf(n: nat)
    ensures
        dec_digits(n).len() >= 1,
        all_digits(dec_digits(n)),
    decreases n,
{
    if n >= 10 {
        lemma_dec_digits_wf(n / 10);
    }
}

/// Reading the numeral of `n` back as a number yields `n`.
pub proof fn lemma_dec_val_of_digits(n: nat)
    ensures
        dec_val(dec_digits(n)) == n,
    decreases n,
{
    let s: Seq<u8> = dec_digits(n);
    if n < 10 {
        assert(s.drop_last() =~= Seq::<u8>::empty());
        assert(dec_val(s) == dec_val(s.drop_last()) * 10 + (s.last() - 48) as nat);
    } else {
        lemma_dec_val_of_digits(n / 10);
        assert(s.drop_last() =~= dec_digits(n / 10));
        assert(dec_val(s) == dec_val(s.drop_last()) * 10 + (s.last() - 48) as nat);
    }
}

/// `10^k`.
pub open spec fn pow10(k: nat) -> nat
    decreases k,
{
    if k == 0 {
        1
    } else {
        10 * pow10((k - 1) as nat)
    }
}

/// A number below `10^k` has a numeral of at most `k` digits.
pub proof fn lemma_dec_digits_len(n: nat, k: nat)
    requires
        k >= 1,
        n < pow10(k),
    ensures
        dec_digits(n).len() <= k,
    decreases n,
{
    if n >= 10 {
        assert(pow10(k) == 10 * pow10((k - 1) as nat));
        lemma_dec_digits_len(n / 10, (k - 1) as nat);
    }
}

/// Writes the decimal numeral of `n` onto the end of `out`.
pub fn push_decimal(out: &mut Vec<u8>, n: u32)
    ensures
        final(out)@ == old(out)@ + dec_digits(n as nat),
    decreases n,
{
    if n >= 10 {
        push_decimal(out, n / 10);
    }
    out.push(48 + (n % 10) as u8);
    assert(out@ =~= old(out)@ + dec_digits(n as nat));
}

/// The decimal numeral of `n` as a fresh byte vector.
pub fn decimal_digits(n: u32) -> (r: Vec<u8>)
    ensures
        r@ == dec_digits(n as nat),
{
    let mut v: Vec<u8> = Vec::new();
    push_decimal(&mut v, n);
    assert(v@ =~= dec_digits(n as nat));
    v
}

/// `s` without its last byte; the empty sequence stays empty.
pub open spec fn drop_last_if_any(s: Seq<u8>) -> Seq<u8> {
    if s.len() > 0 {
        s.drop_last()
    } else {
        s
    }
}

/// Ends the physical line under construction when the running character
/// count has gone past the budget: the pending trailing separator is
/// dropped, a newline takes its place, and the count restarts at zero.
/// Otherwise leaves both untouched.
pub fn trim_line(pixel_data: &mut Vec<u8>, line_length: &mut u32)
    ensures
        *old(line_length) > MAX_LINE_LENGTH ==> final(pixel_data)@ == drop_last_if_any(
            old(pixel_data)@,
        ).push(NEWLINE) && *final(line_length) == 0,
        *old(line_length) <= MAX_LINE_LENGTH ==> final(pixel_data)@ == old(pixel_data)@
            && *final(line_length) == *old(line_length),
{
    if *line_length > MAX_LINE_LENGTH {
        pixel_data.pop();
        pixel_data.push(NEWLINE);
        *line_length = 0;
    }
}

/// The running character count after a token of `dlen` digits: the token
/// and its separator are added, unless that passes the budget, in which
/// case the count restarts at zero with the token uncounted.
pub open spec fn step_count(count: int, dlen: int) -> int {
    if count + dlen + 1 > MAX_LINE_LENGTH {
        0
    } else {
        count + dlen + 1
    }
}

/// The buffered row text just before a token of `dlen` digits is appended:
/// unchanged, unless the budget is passed, in which case the pending
/// separator gives way to a newline.
pub open spec fn wrap_acc(acc: Seq<u8>, count: int, dlen: int) -> Seq<u8> {
    if count + dlen + 1 > MAX_LINE_LENGTH {
        drop_last_if_any(acc).push(NEWLINE)
    } else {
        acc
    }
}

/// The text of one row, emitting the tokens from index `j` on with running
/// count `count` onto the buffered text `acc`. The final token is followed
/// by the row's terminating newline, every other one by a space.
pub open spec fn row_step(tokens: Seq<u8>, j: int, count: int, acc: Seq<u8>) -> Seq<u8>
    decreases tokens.len() - j,
{
    if j < 0 || j >= tokens.len() {
        acc
    } else {
        let d = dec_digits(tokens[j] as nat);
        let acc1 = wrap_acc(acc, count, d.len() as int) + d;
        let acc2 = if j == tokens.len() - 1 {
            acc1.push(NEWLINE)
        } else {
            acc1.push(SPACE)
        };
        row_step(tokens, j + 1, step_count(count, d.len() as int), acc2)
    }
}

/// The complete text of one row of channel values.
pub open spec fn row_bytes(tokens: Seq<u8>) -> Seq<u8> {
    row_step(tokens, 0, 0, Seq::empty())
}

/// Channel `k` of a pixel, in the order red, green, blue.
pub open spec fn channel_at(p: Pixel, k: int) -> u8 {
    if k == 0 {
        p.r
    } else if k == 1 {
        p.g
    } else {
        p.b
    }
}

/// The channel values of a run of pixels, flattened in order.
pub open spec fn channel_seq(pixels: Seq<Pixel>) -> Seq<u8> {
    Seq::new(3 * pixels.len(), |k: int| channel_at(pixels[k / 3], k % 3))
}

/// The channel values of row `r` of a row-major grid of width `w`.
pub open spec fn row_tokens(pixels: Seq<Pixel>, w: nat, r: int) -> Seq<u8> {
    channel_seq(pixels.subrange(r * w, (r + 1) * w))
}

/// The body text of the first `r` rows.
pub open spec fn body_bytes_upto(pixels: Seq<Pixel>, w: nat, r: int) -> Seq<u8>
    decreases r,
{
    if r <= 0 {
        Seq::empty()
    } else {
        body_bytes_upto(pixels, w, r - 1) + row_bytes(row_tokens(pixels, w, r - 1))
    }
}

/// The complete body text of a `w` by `h` row-major grid.
pub open spec fn body_bytes(pixels: Seq<Pixel>, w: nat, h: nat) -> Seq<u8> {
    body_bytes_upto(pixels, w, h as int)
}

/// The header: the magic token `P3`, the width and height, and the maximum
/// channel value `255`, each on a newline-terminated line of its own.
pub open spec fn header_bytes(w: nat, h: nat) -> Seq<u8> {
    seq![80u8, 51u8, NEWLINE] + dec_digits(w) + seq![SPACE] + dec_digits(h) + seq![
        NEWLINE,
        50u8,
        53u8,
        53u8,
        NEWLINE,
    ]
}

/// The complete encoding: header, then body.
pub open spec fn ppm_bytes(pixels: Seq<Pixel>, w: nat, h: nat) -> Seq<u8> {
    header_bytes(w, h) + body_bytes(pixels, w, h)
}

/// The encoding as text; every byte of it is ASCII.
pub open spec fn ppm_chars(pixels: Seq<Pixel>, w: nat, h: nat) -> Seq<char> {
    ppm_bytes(pixels, w, h).map_values(|b: u8| b as char)
}

/// Every byte of `s` is ASCII.
pub open spec fn all_ascii(s: Seq<u8>) -> bool {
    forall|i: int| 0 <= i < s.len() ==> s[i] < 128
}

/// Row text built on an ASCII buffer stays ASCII.
pub proof fn lemma_row_step_ascii(tokens: Seq<u8>, j: int, count: int, acc: Seq<u8>)
    requires
        all_ascii(acc),
    ensures
        all_ascii(row_step(tokens, j, count, acc)),
    decreases tokens.len() - j,
{
    if 0 <= j < tokens.len() {
        let d = dec_digits(tokens[j] as nat);
        lemma_dec_digits_wf(tokens[j] as nat);
        let acc1 = wrap_acc(acc, count, d.len() as int) + d;
        let acc2 = if j == tokens.len() - 1 {
            acc1.push(NEWLINE)
        } else {
            acc1.push(SPACE)
        };
        assert(all_ascii(acc2));
        lemma_row_step_ascii(tokens, j + 1, step_count(count, d.len() as int), acc2);
    }
}

/// A nonempty row's text is nonempty and closes with the row's newline.
pub proof fn lemma_row_step_last(tokens: Seq<u8>, j: int, count: int, acc: Seq<u8>)
    requires
        0 <= j < tokens.len(),
    ensures
        row_step(tokens, j, count, acc).len() >= 1,
        row_step(tokens, j, count, acc).last() == NEWLINE,
    decreases tokens.len() - j,
{
    let d = dec_digits(tokens[j] as nat);
    let acc1 = wrap_acc(acc, count, d.len() as int) + d;
    let acc2 = if j == tokens.len() - 1 {
        acc1.push(NEWLINE)
    } else {
        acc1.push(SPACE)
    };
    if j < tokens.len() - 1 {
        lemma_row_step_last(tokens, j + 1, step_count(count, d.len() as int), acc2);
    } else {
        assert(row_step(tokens, j + 1, step_count(count, d.len() as int), acc2) == acc2);
    }
}

/// The body text of any prefix of the rows is ASCII.
pub proof fn lemma_body_ascii(pixels: Seq<Pixel>, w: nat, r: int)
    ensures
        all_ascii(body_bytes_upto(pixels, w, r)),
    decreases r,
{
    if r > 0 {
        lemma_body_ascii(pixels, w, r - 1);
        lemma_row_step_ascii(row_tokens(pixels, w, r - 1), 0, 0, Seq::empty());
    }
}

/// The complete encoding is ASCII text.
pub proof fn lemma_ppm_ascii(pixels: Seq<Pixel>, w: nat, h: nat)
    ensures
        all_ascii(ppm_bytes(pixels, w, h)),
{
    lemma_dec_digits_wf(w);
    lemma_dec_digits_wf(h);
    lemma_body_ascii(pixels, w, h as int);
}

/// The encoding of a well-formed grid is nonempty and ends with exactly the
/// final row's terminating newline.
pub proof fn lemma_ppm_ends_newline(pixels: Seq<Pixel>, w: nat, h: nat)
    requires
        w >= 1,
        h >= 1,
        pixels.len() == w * h,
    ensures
        ppm_bytes(pixels, w, h).len() > 0,
        ppm_bytes(pixels, w, h).last() == NEWLINE,
{
    let toks = row_tokens(pixels, w, h - 1);
    assert((h - 1) * w >= 0 && (h - 1) * w + w == h * w && h * w <= pixels.len())
        by (nonlinear_arith)
        requires
            w >= 1,
            h >= 1,
            pixels.len() == w * h,
    ;
    assert(toks.len() == 3 * w);
    lemma_row_step_last(toks, 0, 0, Seq::empty());
}

/// The encoding opens with exactly the three header lines: the magic
/// token `P3`; the numerals of width and height, separated by one space;
/// and the maximum channel value `255` — each closed by a newline. The
/// numerals are nonempty, hold only digit bytes (so no newline falls
/// inside them), and read back as the dimensions themselves.
pub proof fn lemma_ppm_header(pixels: Seq<Pixel>, w: nat, h: nat)
    ensures
        ppm_bytes(pixels, w, h) == seq![80u8, 51u8, NEWLINE] + dec_digits(w) + seq![SPACE]
            + dec_digits(h) + seq![NEWLINE, 50u8, 53u8, 53u8, NEWLINE] + body_bytes(pixels, w, h),
        dec_digits(w).len() >= 1,
        all_digits(dec_digits(w)),
        dec_val(dec_digits(w)) == w,
        dec_digits(h).len() >= 1,
        all_digits(dec_digits(h)),
        dec_val(dec_digits(h)) == h,
{
    lemma_dec_digits_wf(w);
    lemma_dec_digits_wf(h);
    lemma_dec_val_of_digits(w);
    lemma_dec_val_of_digits(h);
    assert(ppm_bytes(pixels, w, h) =~= seq![80u8, 51u8, NEWLINE] + dec_digits(w) + seq![SPACE]
        + dec_digits(h) + seq![NEWLINE, 50u8, 53u8, 53u8, NEWLINE] + body_bytes(pixels, w, h));
}

/// Appends one channel token to the buffered row text: the running count
/// takes the token and its separator, the line is wrapped if that passes
/// the budget, and the token follows, closed by a space, or by the row's
/// newline when it is the row's last.
pub fn push_token(line: &mut Vec<u8>, line_length: &mut u32, value: u8, last: bool)
    requires
        *old(line_length) <= MAX_LINE_LENGTH,
    ensures
        final(line)@ == (wrap_acc(
            old(line)@,
            *old(line_length) as int,
            dec_digits(value as nat).len() as int,
        ) + dec_digits(value as nat)).push(if last {
            NEWLINE
        } else {
            SPACE
        }),
        *final(line_length) == step_count(
            *old(line_length) as int,
            dec_digits(value as nat).len() as int,
        ),
        *final(line_length) <= MAX_LINE_LENGTH,
        final(line)@.len() > 0,
{
    let mut digits: Vec<u8> = decimal_digits(value as u32);
    proof {
        reveal_with_fuel(pow10, 4);
        lemma_dec_digits_len(value as nat, 3);
        lemma_dec_digits_wf(value as nat);
    }
    let dlen: u32 = digits.len() as u32;
    *line_length = *line_length + dlen + 1;
    trim_line(line, line_length);
    line.append(&mut digits);
    if last {
        line.push(NEWLINE);
    } else {
        line.push(SPACE);
    }
}

} // verus!
