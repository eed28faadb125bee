//! Whitespace tokenization of the encoded body, and the laws that tie the
//! body text back to the stored channel values: splitting the body on
//! spaces and newlines recovers exactly the decimal numerals of the
//! channels, in row-major order, three per pixel.

use vstd::prelude::*;

use crate::color::Pixel;
use crate::ppm::{
    all_digits, body_bytes, body_bytes_upto, channel_at, channel_seq, dec_digits, dec_val,
    drop_last_if_any, is_digit, lemma_dec_digits_len, lemma_dec_digits_wf,
    lemma_dec_val_of_digits, lemma_row_step_last, pow10, row_bytes, row_step, row_tokens,
    step_count, wrap_acc, MAX_LINE_LENGTH, NEWLINE, SPACE,
};

verus! {

/// `b` separates tokens: a space or a newline.
pub open spec fn is_sep(b: u8) -> bool {
    b == SPACE || b == NEWLINE
}

/// No byte of `s` is a separator.
pub open spec fn no_sep(s: Seq<u8>) -> bool {
    forall|i: int| 0 <= i < s.len() ==> !is_sep(s[i])
}

/// Tokenizes `s` from the left: `cur` is the token under construction.
/// Maximal runs of non-separator bytes become tokens; separators are
/// dropped; empty runs yield nothing.
pub open spec fn tok_rec(s: Seq<u8>, cur: Seq<u8>) -> Seq<Seq<u8>>
    decreases s.len(),
{
    if s.len() == 0 {
        if cur.len() > 0 {
            seq![cur]
        } else {
            Seq::empty()
        }
    } else if is_sep(s[0]) {
        (if cur.len() > 0 {
            seq![cur]
        } else {
            Seq::empty()
        }) + tok_rec(s.drop_first(), Seq::empty())
    } else {
        tok_rec(s.drop_first(), cur.push(s[0]))
    }
}

/// The whitespace-separated tokens of `s`, in order.
pub open spec fn tokens_of(s: Seq<u8>) -> Seq<Seq<u8>> {
    tok_rec(s, Seq::empty())
}

/// Tokenization distributes over concatenation at a separator boundary.
proof fn lemma_tok_split(s: Seq<u8>, t: Seq<u8>, cur: Seq<u8>)
    requires
        s.len() > 0,
        is_sep(s.last()),
    ensures
        tok_rec(s + t, cur) == tok_rec(s, cur) + tok_rec(t, Seq::empty()),
    decreases s.len(),
{
    assert((s + t).len() == s.len() + t.len());
    assert((s + t)[0] == s[0]);
    assert((s + t).drop_first() =~= s.drop_first() + t);
    if s.len() == 1 {
        assert(is_sep(s[0]));
        assert(s.drop_first() =~= Seq::<u8>::empty());
        assert((s + t).drop_first() =~= t);
        assert(tok_rec(Seq::<u8>::empty(), Seq::<u8>::empty()) == Seq::<Seq<u8>>::empty());
        assert(tok_rec(s, cur) =~= (if cur.len() > 0 {
            seq![cur]
        } else {
            Seq::<Seq<u8>>::empty()
        }));
        assert(tok_rec(s + t, cur) =~= tok_rec(s, cur) + tok_rec(t, Seq::empty()));
    } else {
        assert(s.drop_first().last() == s.last());
        if is_sep(s[0]) {
            lemma_tok_split(s.drop_first(), t, Seq::empty());
            assert(tok_rec(s + t, cur) =~= tok_rec(s, cur) + tok_rec(t, Seq::empty()));
        } else {
            lemma_tok_split(s.drop_first(), t, cur.push(s[0]));
        }
    }
}

/// One non-separator run closed by a separator is one token, finishing
/// whatever token was under construction.
proof fn lemma_tok_token(d: Seq<u8>, sep: u8, cur: Seq<u8>)
    requires
        d.len() > 0,
        no_sep(d),
        is_sep(sep),
    ensures
        tok_rec(d + seq![sep], cur) == seq![cur + d],
    decreases d.len(),
{
    let s = d + seq![sep];
    assert(s[0] == d[0]);
    assert(!is_sep(s[0]));
    assert(s.drop_first() =~= d.drop_first() + seq![sep]);
    if d.len() == 1 {
        assert(d.drop_first() =~= Seq::<u8>::empty());
        assert(s.drop_first() =~= seq![sep]);
        assert(seq![sep].drop_first() =~= Seq::<u8>::empty());
        assert(tok_rec(Seq::<u8>::empty(), Seq::<u8>::empty()) == Seq::<Seq<u8>>::empty());
        assert(cur.push(d[0]).len() > 0);
        assert(tok_rec(seq![sep], cur.push(d[0])) =~= seq![cur.push(d[0])]);
        assert(cur.push(d[0]) =~= cur + d);
        assert(tok_rec(s, cur) =~= seq![cur + d]);
    } else {
        lemma_tok_token(d.drop_first(), sep, cur.push(d[0]));
        assert(cur.push(d[0]) + d.drop_first() =~= cur + d);
    }
}

/// Which separator closes the text makes no difference to its tokens.
proof fn lemma_tok_sep_swap(s: Seq<u8>, a: u8, b: u8, cur: Seq<u8>)
    requires
        is_sep(a),
        is_sep(b),
    ensures
        tok_rec(s + seq![a], cur) == tok_rec(s + seq![b], cur),
    decreases s.len(),
{
    if s.len() == 0 {
        assert(s + seq![a] =~= seq![a]);
        assert(s + seq![b] =~= seq![b]);
        assert(seq![a].drop_first() =~= Seq::<u8>::empty());
        assert(seq![b].drop_first() =~= Seq::<u8>::empty());
        assert(tok_rec(seq![a], cur) =~= tok_rec(seq![b], cur));
    } else {
        assert((s + seq![a])[0] == s[0] && (s + seq![b])[0] == s[0]);
        assert((s + seq![a]).drop_first() =~= s.drop_first() + seq![a]);
        assert((s + seq![b]).drop_first() =~= s.drop_first() + seq![b]);
        if is_sep(s[0]) {
            lemma_tok_sep_swap(s.drop_first(), a, b, Seq::empty());
        } else {
            lemma_tok_sep_swap(s.drop_first(), a, b, cur.push(s[0]));
        }
    }
}

/// Appending one separated token to text that ends at a token boundary
/// appends one token.
proof fn lemma_tokens_append_token(s: Seq<u8>, d: Seq<u8>, sep: u8)
    requires
        s.len() == 0 || is_sep(s.last()),
        d.len() > 0,
        no_sep(d),
        is_sep(sep),
    ensures
        tokens_of(s + d + seq![sep]) == tokens_of(s).push(d),
{
    lemma_tok_token(d, sep, Seq::empty());
    assert(Seq::<u8>::empty() + d =~= d);
    if s.len() == 0 {
        assert(s + d + seq![sep] =~= d + seq![sep]);
        assert(tokens_of(s) =~= Seq::<Seq<u8>>::empty());
        assert(seq![d] =~= tokens_of(s).push(d));
    } else {
        lemma_tok_split(s, d + seq![sep], Seq::empty());
        assert(s + d + seq![sep] =~= s + (d + seq![sep]));
        assert(tokens_of(s) + seq![d] =~= tokens_of(s).push(d));
    }
}

/// Replacing the pending trailing separator by a newline keeps the tokens.
proof fn lemma_tokens_wrap(acc: Seq<u8>)
    requires
        acc.len() > 0,
        is_sep(acc.last()),
    ensures
        tokens_of(drop_last_if_any(acc).push(NEWLINE)) == tokens_of(acc),
{
    lemma_tok_sep_swap(acc.drop_last(), acc.last(), NEWLINE, Seq::empty());
    assert(acc.drop_last() + seq![acc.last()] =~= acc);
    assert(acc.drop_last() + seq![NEWLINE] =~= drop_last_if_any(acc).push(NEWLINE));
}

/// A decimal numeral holds no separator.
proof fn lemma_digits_no_sep(n: nat)
    ensures
        no_sep(dec_digits(n)),
        dec_digits(n).len() > 0,
{
    lemma_dec_digits_wf(n);
    assert forall|i: int| 0 <= i < dec_digits(n).len() implies !is_sep(dec_digits(n)[i]) by {
        assert(is_digit(dec_digits(n)[i]));
    }
}

/// Emitting the tokens from index `j` on appends exactly their numerals to
/// the tokens of the buffered text.
proof fn lemma_row_step_tokens(tokens: Seq<u8>, j: int, count: int, acc: Seq<u8>)
    requires
        0 <= j <= tokens.len(),
        acc.len() == 0 ==> count <= 60,
        acc.len() > 0 ==> is_sep(acc.last()),
    ensures
        tokens_of(row_step(tokens, j, count, acc)) == tokens_of(acc) + tokens.skip(j).map_values(
            |t: u8| dec_digits(t as nat),
        ),
    decreases tokens.len() - j,
{
    let numeral = |t: u8| dec_digits(t as nat);
    if j >= tokens.len() {
        assert(tokens.skip(j) =~= Seq::<u8>::empty());
        assert(tokens.skip(j).map_values(numeral) =~= Seq::<Seq<u8>>::empty());
        assert(tokens_of(acc) + tokens.skip(j).map_values(numeral) =~= tokens_of(acc));
    } else {
        let d = dec_digits(tokens[j] as nat);
        let dlen: int = d.len() as int;
        lemma_digits_no_sep(tokens[j] as nat);
        reveal_with_fuel(pow10, 4);
        lemma_dec_digits_len(tokens[j] as nat, 3);
        let acc1 = wrap_acc(acc, count, dlen);
        if count + dlen + 1 > MAX_LINE_LENGTH {
            assert(count > 60);
            assert(acc.len() > 0);
            lemma_tokens_wrap(acc);
        }
        assert(acc1.len() == 0 || is_sep(acc1.last()));
        assert(tokens_of(acc1) == tokens_of(acc));
        let sep: u8 = if j == tokens.len() - 1 {
            NEWLINE
        } else {
            SPACE
        };
        let acc2 = if j == tokens.len() - 1 {
            (acc1 + d).push(NEWLINE)
        } else {
            (acc1 + d).push(SPACE)
        };
        assert(acc2 =~= acc1 + d + seq![sep]);
        lemma_tokens_append_token(acc1, d, sep);
        assert(tokens_of(acc2) == tokens_of(acc).push(d));
        assert(acc2.last() == sep);
        lemma_row_step_tokens(tokens, j + 1, step_count(count, dlen), acc2);
        assert(row_step(tokens, j, count, acc) == row_step(
            tokens,
            j + 1,
            step_count(count, dlen),
            acc2,
        ));
        assert(tokens_of(acc).push(d) + tokens.skip(j + 1).map_values(numeral) =~= tokens_of(acc)
            + tokens.skip(j).map_values(numeral));
    }
}

/// The tokens of one row's text are exactly the numerals of its channel
/// values.
proof fn lemma_row_tokens_are_numerals(tokens: Seq<u8>)
    ensures
        tokens_of(row_bytes(tokens)) == tokens.map_values(|t: u8| dec_digits(t as nat)),
{
    lemma_row_step_tokens(tokens, 0, 0, Seq::empty());
    assert(tokens_of(Seq::<u8>::empty()) =~= Seq::<Seq<u8>>::empty());
    assert(tokens.skip(0) =~= tokens);
    assert(Seq::<Seq<u8>>::empty() + tokens.skip(0).map_values(|t: u8| dec_digits(t as nat))
        =~= tokens.map_values(|t: u8| dec_digits(t as nat)));
}

/// The body text of `r` rows ends with the last row's newline.
pub proof fn lemma_body_upto_last(pixels: Seq<Pixel>, w: nat, h: nat, r: int)
    requires
        w >= 1,
        pixels.len() == w * h,
        1 <= r <= h,
    ensures
        body_bytes_upto(pixels, w, r).len() >= 1,
        body_bytes_upto(pixels, w, r).last() == NEWLINE,
{
    let toks = row_tokens(pixels, w, r - 1);
    assert((r - 1) * (w as int) >= 0 && (r - 1) * (w as int) + (w as int) == r * (w as int) && r
        * (w as int) <= pixels.len()) by (nonlinear_arith)
        requires
            w >= 1,
            1 <= r <= h,
            pixels.len() == w * h,
    ;
    assert(toks.len() == 3 * w);
    lemma_row_step_last(toks, 0, 0, Seq::empty());
}

/// The tokens of the body of the first `r` rows are the numerals of the
/// channel values of the first `r` rows.
proof fn lemma_body_upto_tokens(pixels: Seq<Pixel>, w: nat, h: nat, r: int)
    requires
        w >= 1,
        pixels.len() == w * h,
        0 <= r <= h,
    ensures
        tokens_of(body_bytes_upto(pixels, w, r)) == channel_seq(
            pixels.take(r * (w as int)),
        ).map_values(|t: u8| dec_digits(t as nat)),
    decreases r,
{
    let numeral = |t: u8| dec_digits(t as nat);
    if r == 0 {
        assert(body_bytes_upto(pixels, w, 0) == Seq::<u8>::empty());
        assert(pixels.take(0) =~= Seq::<Pixel>::empty());
        assert(channel_seq(Seq::<Pixel>::empty()).map_values(numeral)
            =~= Seq::<Seq<u8>>::empty());
        assert(tokens_of(Seq::<u8>::empty()) =~= Seq::<Seq<u8>>::empty());
        assert(r * (w as int) == 0) by (nonlinear_arith)
            requires
                r == 0,
        ;
        assert(tokens_of(body_bytes_upto(pixels, w, r)) =~= channel_seq(
            pixels.take(r * (w as int)),
        ).map_values(numeral));
    } else {
        lemma_body_upto_tokens(pixels, w, h, r - 1);
        let toks = row_tokens(pixels, w, r - 1);
        assert((r - 1) * (w as int) >= 0 && (r - 1) * (w as int) + (w as int) == r * (w as int)
            && r * (w as int) <= pixels.len()) by (nonlinear_arith)
            requires
                w >= 1,
                1 <= r <= h,
                pixels.len() == w * h,
        ;
        assert(toks.len() == 3 * w);
        lemma_row_tokens_are_numerals(toks);
        let prev = body_bytes_upto(pixels, w, r - 1);
        if r == 1 {
            assert(prev =~= Seq::<u8>::empty());
            assert(prev + row_bytes(toks) =~= row_bytes(toks));
            assert(tokens_of(Seq::<u8>::empty()) =~= Seq::<Seq<u8>>::empty());
            assert(tokens_of(prev) + tokens_of(row_bytes(toks)) =~= tokens_of(row_bytes(toks)));
        } else {
            lemma_body_upto_last(pixels, w, h, r - 1);
            lemma_tok_split(prev, row_bytes(toks), Seq::empty());
        }
        assert(tokens_of(body_bytes_upto(pixels, w, r)) == tokens_of(prev) + toks.map_values(
            numeral,
        ));
        let lhs = channel_seq(pixels.take((r - 1) * (w as int))).map_values(numeral)
            + toks.map_values(numeral);
        let rhs = channel_seq(pixels.take(r * (w as int))).map_values(numeral);
        assert forall|k: int| 0 <= k < rhs.len() implies lhs[k] == rhs[k] by {
            let m: int = (r - 1) * (w as int);
            assert(0 <= m && m + w == r * (w as int));
            if k < 3 * m {
                assert((3 * m) / 3 == m) by (nonlinear_arith);
                assert(k / 3 < m) by (nonlinear_arith)
                    requires
                        0 <= k < 3 * m,
                ;
                assert(pixels.take(m)[k / 3] == pixels.take(r * (w as int))[k / 3]);
            } else {
                let k2: int = k - 3 * m;
                assert(k2 / 3 == k / 3 - m && k2 % 3 == k % 3) by (nonlinear_arith)
                    requires
                        k2 == k - 3 * m,
                        0 <= m,
                        k2 >= 0,
                ;
                assert(0 <= k2 < 3 * w && 0 <= k2 / 3 < w) by (nonlinear_arith)
                    requires
                        k2 == k - 3 * m,
                        k2 >= 0,
                        k < 3 * (m + w),
                ;
                let sub = pixels.subrange(m, m + w);
                assert(toks[k2] == channel_at(sub[k2 / 3], k2 % 3));
                assert(sub[k2 / 3] == pixels[m + k2 / 3]);
                assert(0 <= k / 3 < r * (w as int)) by (nonlinear_arith)
                    requires
                        0 <= k < 3 * (r * (w as int)),
                ;
                assert(pixels.take(r * (w as int))[k / 3] == pixels[k / 3]);
            }
        }
        assert(lhs =~= rhs);
    }
}

/// Round trip: splitting the body on whitespace yields one decimal token
/// per channel, three per pixel in row-major order, and reading each token
/// back as a number yields exactly the stored channel value. No token is
/// ever split by a line break.
pub proof fn lemma_body_round_trip(pixels: Seq<Pixel>, w: nat, h: nat)
    requires
        w >= 1,
        h >= 1,
        pixels.len() == w * h,
    ensures
        tokens_of(body_bytes(pixels, w, h)) == channel_seq(pixels).map_values(
            |t: u8| dec_digits(t as nat),
        ),
        tokens_of(body_bytes(pixels, w, h)).len() == 3 * pixels.len(),
        forall|k: int|
            0 <= k < 3 * pixels.len() ==> dec_val(
                #[trigger] tokens_of(body_bytes(pixels, w, h))[k],
            ) == channel_at(pixels[k / 3], k % 3),
{
    lemma_body_upto_tokens(pixels, w, h, h as int);
    assert((h as int) * (w as int) == pixels.len()) by (nonlinear_arith)
        requires
            pixels.len() == w * h,
    ;
    assert(pixels.take((h as int) * (w as int)) =~= pixels);
    assert forall|k: int| 0 <= k < 3 * pixels.len() implies dec_val(
        #[trigger] tokens_of(body_bytes(pixels, w, h))[k],
    ) == channel_at(pixels[k / 3], k % 3) by {
        assert(0 <= k / 3 < pixels.len()) by (nonlinear_arith)
            requires
                0 <= k < 3 * pixels.len(),
        ;
        assert(tokens_of(body_bytes(pixels, w, h))[k] == dec_digits(
            channel_at(pixels[k / 3], k % 3) as nat,
        ));
        lemma_dec_val_of_digits(channel_at(pixels[k / 3], k % 3) as nat);
    }
}

/// A fresh canvas body: every token is the single numeral `0`, and there
/// are exactly three per pixel.
pub proof fn lemma_fresh_body_tokens(pixels: Seq<Pixel>, w: nat, h: nat)
    requires
        w >= 1,
        h >= 1,
        pixels.len() == w * h,
        forall|i: int| 0 <= i < pixels.len() ==> pixels[i] == (Pixel { r: 0, g: 0, b: 0 }),
    ensures
        tokens_of(body_bytes(pixels, w, h)).len() == 3 * w * h,
        forall|k: int|
            0 <= k < 3 * w * h ==> #[trigger] tokens_of(body_bytes(pixels, w, h))[k] == seq![48u8],
{
    lemma_body_round_trip(pixels, w, h);
    assert(3 * pixels.len() == 3 * w * h) by (nonlinear_arith)
        requires
            pixels.len() == w * h,
    ;
    assert forall|k: int| 0 <= k < 3 * w * h implies #[trigger] tokens_of(
        body_bytes(pixels, w, h),
    )[k] == seq![48u8] by {
        assert(0 <= k / 3 < pixels.len()) by (nonlinear_arith)
            requires
                0 <= k < 3 * pixels.len(),
        ;
        assert(channel_at(pixels[k / 3], k % 3) == 0);
        assert(tokens_of(body_bytes(pixels, w, h))[k] == dec_digits(0));
        assert(dec_digits(0) =~= seq![48u8]);
    }
}

} // verus!
