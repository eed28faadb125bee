//! How long a physical line of the encoding can get.
//!
//! The wrap rule counts each token and its separator, but a token that
//! opens a continuation line after a wrap goes uncounted, so a physical
//! line can run past the 70-character budget by that one token and its
//! separator: at most 73 characters in all. This module proves that bound
//! for the whole encoding, header lines included.

use vstd::prelude::*;

use crate::color::Pixel;
use crate::ppm::{
    body_bytes_upto, dec_digits, header_bytes, lemma_dec_digits_len, lemma_dec_digits_wf,
    lemma_ppm_ends_newline, pow10, ppm_bytes, row_bytes, row_step, row_tokens, step_count,
    wrap_acc, MAX_LINE_LENGTH, NEWLINE, SPACE,
};
use crate::tokens::lemma_body_upto_last;

verus! {

/// No newline occurs in `s` at a position in `[i, j)`.
pub open spec fn nl_free(s: Seq<u8>, i: int, j: int) -> bool {
    forall|k: int| i <= k < j ==> s[k] != NEWLINE
}

/// Every newline-terminated run of `s` holds at most `b` bytes before its
/// newline.
pub open spec fn closed_lines_bounded(s: Seq<u8>, b: int) -> bool {
    forall|i: int, j: int|
        0 <= i <= j < s.len() && #[trigger] nl_free(s, i, j) && s[j] == NEWLINE ==> j - i <= b
}

/// The length of the suffix of `s` after its last newline.
pub open spec fn tail_len(s: Seq<u8>) -> int
    decreases s.len(),
{
    if s.len() == 0 {
        0
    } else if s.last() == NEWLINE {
        0
    } else {
        1 + tail_len(s.drop_last())
    }
}

/// The tail runs from the byte after the last newline to the end.
proof fn lemma_tail_len(s: Seq<u8>)
    ensures
        0 <= tail_len(s) <= s.len(),
        nl_free(s, s.len() - tail_len(s), s.len() as int),
        tail_len(s) < s.len() ==> s[s.len() - tail_len(s) - 1] == NEWLINE,
    decreases s.len(),
{
    if s.len() > 0 && s.last() != NEWLINE {
        lemma_tail_len(s.drop_last());
        let d = s.drop_last();
        assert forall|k: int| s.len() - tail_len(s) <= k < s.len() implies s[k] != NEWLINE by {
            if k < s.len() - 1 {
                assert(d[k] == s[k]);
                assert(d.len() - tail_len(d) <= k < d.len());
            }
        }
    }
}

/// Pushing one byte: a newline closes the tail as a new bounded run; any
/// other byte lengthens the tail by one.
proof fn lemma_clb_push(s: Seq<u8>, x: u8, b: int)
    requires
        closed_lines_bounded(s, b),
        x == NEWLINE ==> tail_len(s) <= b,
    ensures
        closed_lines_bounded(s.push(x), b),
        tail_len(s.push(x)) == if x == NEWLINE {
            0int
        } else {
            tail_len(s) + 1
        },
{
    let s2 = s.push(x);
    assert(s2.drop_last() =~= s);
    lemma_tail_len(s);
    assert forall|i: int, j: int|
        0 <= i <= j < s2.len() && #[trigger] nl_free(s2, i, j) && s2[j] == NEWLINE implies j - i
        <= b by {
        if j < s.len() {
            assert forall|k: int| i <= k < j implies s[k] != NEWLINE by {
                assert(s2[k] == s[k]);
            }
            assert(nl_free(s, i, j));
        } else {
            assert(j == s.len() && x == NEWLINE);
            if i < s.len() - tail_len(s) {
                assert(tail_len(s) < s.len());
                let p = s.len() - tail_len(s) - 1;
                assert(s2[p] == s[p]);
                assert(i <= p < j);
                assert(false);
            }
        }
    }
}

/// Appending newline-free bytes keeps every closed run and lengthens the
/// tail by their number.
proof fn lemma_clb_concat_free(s: Seq<u8>, d: Seq<u8>, b: int)
    requires
        closed_lines_bounded(s, b),
        forall|i: int| 0 <= i < d.len() ==> d[i] != NEWLINE,
    ensures
        closed_lines_bounded(s + d, b),
        tail_len(s + d) == tail_len(s) + d.len(),
    decreases d.len(),
{
    if d.len() == 0 {
        assert(s + d =~= s);
    } else {
        lemma_clb_concat_free(s, d.drop_last(), b);
        lemma_clb_push(s + d.drop_last(), d.last(), b);
        assert((s + d.drop_last()).push(d.last()) =~= s + d);
    }
}

/// Dropping a trailing non-newline byte keeps every closed run and
/// shortens the tail by one.
proof fn lemma_clb_drop_last(s: Seq<u8>, b: int)
    requires
        closed_lines_bounded(s, b),
        s.len() > 0,
        s.last() != NEWLINE,
    ensures
        closed_lines_bounded(s.drop_last(), b),
        tail_len(s.drop_last()) == tail_len(s) - 1,
{
    let s2 = s.drop_last();
    assert forall|i: int, j: int|
        0 <= i <= j < s2.len() && #[trigger] nl_free(s2, i, j) && s2[j] == NEWLINE implies j - i
        <= b by {
        assert forall|k: int| i <= k < j implies s[k] != NEWLINE by {
            assert(s2[k] == s[k]);
        }
        assert(nl_free(s, i, j));
        assert(s[j] == NEWLINE);
    }
}

/// Emitting a row keeps every physical line within 73 bytes: the wrap rule
/// admits at most 70 counted bytes per line, plus one uncounted token of
/// at most three digits and its separator, less the separator dropped at
/// the wrap.
proof fn lemma_row_step_lines(tokens: Seq<u8>, j: int, count: int, acc: Seq<u8>)
    requires
        0 <= j <= tokens.len(),
        0 <= count <= MAX_LINE_LENGTH,
        closed_lines_bounded(acc, 73),
        tail_len(acc) <= count + 4,
        j < tokens.len() && count > 0 ==> acc.len() > 0 && acc.last() == SPACE,
    ensures
        closed_lines_bounded(row_step(tokens, j, count, acc), 73),
    decreases tokens.len() - j,
{
    if j < tokens.len() {
        let d = dec_digits(tokens[j] as nat);
        let dlen: int = d.len() as int;
        lemma_dec_digits_wf(tokens[j] as nat);
        reveal_with_fuel(pow10, 4);
        lemma_dec_digits_len(tokens[j] as nat, 3);
        assert(forall|i: int| 0 <= i < d.len() ==> d[i] != NEWLINE);
        let acc1 = wrap_acc(acc, count, dlen);
        let c1 = step_count(count, dlen);
        if count + dlen + 1 > MAX_LINE_LENGTH {
            assert(count > 0);
            lemma_clb_drop_last(acc, 73);
            lemma_clb_push(acc.drop_last(), NEWLINE, 73);
            assert(acc1 == acc.drop_last().push(NEWLINE));
        }
        assert(closed_lines_bounded(acc1, 73));
        assert(tail_len(acc1) <= if count + dlen + 1 > MAX_LINE_LENGTH {
            0int
        } else {
            count + 4
        });
        lemma_clb_concat_free(acc1, d, 73);
        let acc1d = acc1 + d;
        assert(tail_len(acc1d) <= 73);
        if j == tokens.len() - 1 {
            lemma_clb_push(acc1d, NEWLINE, 73);
            lemma_row_step_lines(tokens, j + 1, c1, acc1d.push(NEWLINE));
        } else {
            lemma_clb_push(acc1d, SPACE, 73);
            lemma_row_step_lines(tokens, j + 1, c1, acc1d.push(SPACE));
        }
    }
}

/// Concatenating at a newline boundary keeps every closed run bounded.
proof fn lemma_clb_concat_at_nl(a: Seq<u8>, c: Seq<u8>, b: int)
    requires
        closed_lines_bounded(a, b),
        closed_lines_bounded(c, b),
        a.len() == 0 || a.last() == NEWLINE,
    ensures
        closed_lines_bounded(a + c, b),
{
    let s = a + c;
    assert forall|i: int, j: int|
        0 <= i <= j < s.len() && #[trigger] nl_free(s, i, j) && s[j] == NEWLINE implies j - i
        <= b by {
        if j < a.len() {
            assert forall|k: int| i <= k < j implies a[k] != NEWLINE by {
                assert(s[k] == a[k]);
            }
            assert(nl_free(a, i, j));
            assert(a[j] == NEWLINE);
        } else if i >= a.len() {
            let i2 = i - a.len();
            let j2 = j - a.len();
            assert forall|k: int| i2 <= k < j2 implies c[k] != NEWLINE by {
                assert(s[k + a.len()] == c[k]);
            }
            assert(nl_free(c, i2, j2));
            assert(c[j2] == NEWLINE);
        } else {
            let p = a.len() - 1;
            assert(s[p] == a.last());
            assert(i <= p < j);
            assert(false);
        }
    }
}

/// Every closed run of the body is at most 73 bytes.
proof fn lemma_body_upto_lines(pixels: Seq<Pixel>, w: nat, h: nat, r: int)
    requires
        w >= 1,
        pixels.len() == w * h,
        0 <= r <= h,
    ensures
        closed_lines_bounded(body_bytes_upto(pixels, w, r), 73),
    decreases r,
{
    if r > 0 {
        lemma_body_upto_lines(pixels, w, h, r - 1);
        let prev = body_bytes_upto(pixels, w, r - 1);
        let toks = row_tokens(pixels, w, r - 1);
        assert(tail_len(Seq::<u8>::empty()) == 0);
        lemma_row_step_lines(toks, 0, 0, Seq::empty());
        if r - 1 > 0 {
            lemma_body_upto_last(pixels, w, h, r - 1);
        } else {
            assert(prev =~= Seq::<u8>::empty());
        }
        lemma_clb_concat_at_nl(prev, row_bytes(toks), 73);
    }
}

/// The first newline of `s` at or after position `j`, or `s.len()` if
/// there is none.
spec fn next_nl(s: Seq<u8>, j: int) -> int
    decreases s.len() - j,
{
    if j < 0 || j >= s.len() {
        j
    } else if s[j] == NEWLINE {
        j
    } else {
        next_nl(s, j + 1)
    }
}

proof fn lemma_next_nl(s: Seq<u8>, j: int)
    requires
        0 <= j <= s.len(),
    ensures
        j <= next_nl(s, j) <= s.len(),
        next_nl(s, j) < s.len() ==> s[next_nl(s, j)] == NEWLINE,
        nl_free(s, j, next_nl(s, j)),
    decreases s.len() - j,
{
    if j < s.len() && s[j] != NEWLINE {
        lemma_next_nl(s, j + 1);
    }
}

/// Every physical line of the complete encoding — equivalently, every
/// newline-free stretch of it — is at most 73 characters. The wrap rule
/// alone would allow 70; the token that opens a continuation line goes
/// uncounted and can carry the line to 73.
pub proof fn lemma_ppm_line_length(pixels: Seq<Pixel>, w: nat, h: nat)
    requires
        w >= 1,
        h >= 1,
        pixels.len() == w * h,
        w <= u32::MAX,
        h <= u32::MAX,
    ensures
        forall|i: int, j: int|
            0 <= i <= j <= ppm_bytes(pixels, w, h).len() && #[trigger] nl_free(
                ppm_bytes(pixels, w, h),
                i,
                j,
            ) ==> j - i <= 73,
{
    let s = ppm_bytes(pixels, w, h);
    let hd = header_bytes(w, h);
    lemma_dec_digits_wf(w);
    lemma_dec_digits_wf(h);
    reveal_with_fuel(pow10, 11);
    lemma_dec_digits_len(w, 10);
    lemma_dec_digits_len(h, 10);
    assert(hd.len() <= 29);
    assert(closed_lines_bounded(hd, 73));
    assert(hd.last() == NEWLINE);
    lemma_body_upto_lines(pixels, w, h, h as int);
    lemma_clb_concat_at_nl(hd, body_bytes_upto(pixels, w, h as int), 73);
    lemma_ppm_ends_newline(pixels, w, h);
    assert forall|i: int, j: int|
        0 <= i <= j <= s.len() && #[trigger] nl_free(s, i, j) implies j - i <= 73 by {
        lemma_next_nl(s, j);
        let e = next_nl(s, j);
        if e < s.len() {
            assert forall|k: int| i <= k < e implies s[k] != NEWLINE by {
                if k < j {
                    assert(nl_free(s, i, j));
                } else {
                    assert(nl_free(s, j, e));
                }
            }
            assert(nl_free(s, i, e));
            assert(e - i <= 73);
        } else {
            if j < s.len() {
                assert(s[s.len() - 1] == NEWLINE);
                assert(j <= s.len() - 1 < e);
                assert(false);
            } else {
                if i < s.len() {
                    assert(s[s.len() - 1] == NEWLINE);
                    assert(i <= s.len() - 1 < j);
                    assert(false);
                }
            }
        }
    }
}

} // verus!
