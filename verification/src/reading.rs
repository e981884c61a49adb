//! What texts and numbers come to when they are read and written.
use vstd::prelude::*;

use crate::float::{float_less, not_a_number};
use crate::rng::threshold;
use crate::text::{
    decimal, digit_text, digits_value, left_aligned, lemma_decimal_value, pieces, right_aligned,
    separated, signed_decimal, signed_value, trimmed, trimmed_end, trimmed_start, unsigned_value,
    white, word_list,
};

verus! {

proof fn lemma_start(s: Seq<char>) -> (a: int)
    ensures
        0 <= a <= s.len(),
        trimmed_start(s) == s.skip(a),
        forall|i: int| 0 <= i < a ==> white(#[trigger] s[i]),
        a < s.len() ==> !white(s[a]),
    decreases s.len(),
{
    if s.len() > 0 && white(s[0]) {
        let t = s.drop_first();
        let b = lemma_start(t);
        assert forall|i: int| 0 <= i < b + 1 implies white(#[trigger] s[i]) by {
            if i > 0 {
                assert(s[i] == t[i - 1]);
            }
        }
        assert(t.skip(b) =~= s.skip(b + 1));
        b + 1
    } else {
        assert(s.skip(0) =~= s);
        0
    }
}

proof fn lemma_end(s: Seq<char>) -> (b: int)
    ensures
        0 <= b <= s.len(),
        trimmed_end(s) == s.take(b),
        forall|i: int| b <= i < s.len() ==> white(#[trigger] s[i]),
        b > 0 ==> !white(s[b - 1]),
    decreases s.len(),
{
    if s.len() > 0 && white(s.last()) {
        let t = s.drop_last();
        let b = lemma_end(t);
        assert forall|i: int| b <= i < s.len() implies white(#[trigger] s[i]) by {
            if i < t.len() {
                assert(s[i] == t[i]);
            }
        }
        assert(t.take(b) =~= s.take(b));
        b
    } else {
        assert(s.take(s.len() as int) =~= s);
        s.len() as int
    }
}

/// Trimming takes all white space from both ends and nothing else.
pub proof fn trimming_takes_the_ends(s: Seq<char>) -> (r: (int, int))
    ensures
        0 <= r.0 <= r.1 <= s.len(),
        trimmed(s) == s.subrange(r.0, r.1),
        forall|i: int| 0 <= i < r.0 ==> white(#[trigger] s[i]),
        forall|i: int| r.1 <= i < s.len() ==> white(#[trigger] s[i]),
        trimmed(s).len() > 0 ==> !white(trimmed(s)[0]) && !white(trimmed(s).last()),
        trimmed(s).len() == 0 <==> forall|i: int| 0 <= i < s.len() ==> white(#[trigger] s[i]),
{
    let a = lemma_start(s);
    let t = trimmed_start(s);
    let b = lemma_end(t);
    assert(trimmed(s) =~= s.subrange(a, a + b));
    assert forall|i: int| a + b <= i < s.len() implies white(#[trigger] s[i]) by {
        assert(t[i - a] == s[i]);
    }
    if b > 0 {
        assert(trimmed(s)[0] == s[a]);
        assert(trimmed(s).last() == t[b - 1]);
        assert(!white(s[a]));
    } else {
        assert forall|i: int| 0 <= i < s.len() implies white(#[trigger] s[i]) by {}
    }
    (a, a + b)
}

/// An integer of 64 bits that is written reads back, and so does a number within
/// its bound.
pub proof fn written_numbers_read_back(n: int, k: nat, max: nat)
    requires
        -0x8000_0000_0000_0000 <= n <= 0x7fff_ffff_ffff_ffff,
        k <= max,
    ensures
        signed_value(signed_decimal(n)) == Some(n),
        unsigned_value(decimal(k), max) == Some(k),
{
    lemma_decimal_value(k);
    lemma_no_sign(k);
    if n < 0 {
        lemma_decimal_value((-n) as nat);
        let s = signed_decimal(n);
        assert(s.drop_first() =~= decimal((-n) as nat));
    } else {
        lemma_decimal_value(n as nat);
        lemma_no_sign(n as nat);
    }
}

proof fn lemma_no_sign(n: nat)
    ensures
        decimal(n).len() > 0,
        decimal(n)[0] != '+',
        decimal(n)[0] != '-',
{
    lemma_decimal_value(n);
    assert(crate::text::ascii_digit(decimal(n)[0]));
}

/// Only digits, behind one sign at most, read as a number.
pub proof fn only_digits_read_as_numbers(s: Seq<char>, max: nat)
    ensures
        unsigned_value(s, max) matches Some(n) ==> n <= max && (digit_text(s) && digits_value(s) == n
            || s.len() > 1 && s[0] == '+' && digit_text(s.drop_first()) && digits_value(
            s.drop_first(),
        ) == n),
        signed_value(s) matches Some(n) ==> -0x8000_0000_0000_0000 <= n <= 0x7fff_ffff_ffff_ffff,
        s.len() == 0 ==> unsigned_value(s, max) is None && signed_value(s) is None,
{
}

proof fn lemma_separated_last(parts: Seq<Seq<char>>, sep: Seq<char>, c: char)
    requires
        parts.len() > 0,
    ensures
        separated(parts.update(parts.len() - 1, parts.last().push(c)), sep) == separated(
            parts,
            sep,
        ).push(c),
{
    let q = parts.update(parts.len() - 1, parts.last().push(c));
    if parts.len() == 1 {
        assert(q[0] == parts[0].push(c));
    } else {
        assert(q.drop_last() =~= parts.drop_last());
        assert(separated(parts, sep).push(c) =~= separated(parts.drop_last(), sep) + sep
            + parts.last().push(c));
    }
}

/// A text is its pieces with the separator between them, and no piece holds the
/// separator.
pub proof fn pieces_make_up_the_text(s: Seq<char>, sep: char)
    ensures
        pieces(s, sep).len() > 0,
        separated(pieces(s, sep), seq![sep]) == s,
        forall|i: int| 0 <= i < pieces(s, sep).len() ==> !(#[trigger] pieces(s, sep)[i]).contains(sep),
    decreases s.len(),
{
    if s.len() > 0 {
        let t = s.drop_last();
        pieces_make_up_the_text(t, sep);
        let p = pieces(t, sep);
        let q = pieces(s, sep);
        if s.last() == sep {
            assert(q.drop_last() =~= p);
            assert(separated(q, seq![sep]) =~= t.push(sep));
        } else {
            lemma_separated_last(p, seq![sep], s.last());
            assert forall|i: int| 0 <= i < q.len() implies !(#[trigger] q[i]).contains(sep) by {
                if i == p.len() - 1 {
                    assert(!p[i].contains(sep));
                    if q[i].contains(sep) {
                        let k = choose|k: int| 0 <= k < q[i].len() && q[i][k] == sep;
                        if k < p[i].len() {
                            assert(p[i][k] == sep);
                        }
                    }
                } else {
                    assert(q[i] == p[i]);
                }
            }
        }
        assert(t.push(s.last()) =~= s);
    } else {
        assert(separated(pieces(s, sep), seq![sep]) =~= s);
    }
}

/// Words are not empty and hold no white space.
pub proof fn words_are_solid(s: Seq<char>)
    ensures
        s.len() > 0 && !white(s.last()) ==> word_list(s).len() > 0,
        forall|i: int| 0 <= i < word_list(s).len() ==> (#[trigger] word_list(s)[i]).len() > 0,
        forall|i: int, k: int|
            0 <= i < word_list(s).len() && 0 <= k < word_list(s)[i].len() ==> !white(
                #[trigger] word_list(s)[i][k],
            ),
    decreases s.len(),
{
    if s.len() > 0 {
        let t = s.drop_last();
        words_are_solid(t);
        let w = word_list(t);
        let v = word_list(s);
        assert forall|i: int, k: int| 0 <= i < v.len() && 0 <= k < v[i].len() implies !white(
            #[trigger] v[i][k],
        ) by {
            if i < w.len() && k < w[i].len() {
                assert(v[i][k] == w[i][k]);
            } else {
                assert(v[i][k] == s.last());
            }
        }
    }
}

/// An aligned text has the width asked for, or its own where that is larger, and
/// stands at its side.
pub proof fn aligned_texts_have_their_width(s: Seq<char>, width: nat)
    ensures
        left_aligned(s, width).len() == (if s.len() > width {
            s.len()
        } else {
            width
        }),
        right_aligned(s, width).len() == left_aligned(s, width).len(),
        left_aligned(s, width).take(s.len() as int) == s,
        right_aligned(s, width).skip(right_aligned(s, width).len() - s.len()) == s,
        forall|i: int|
            s.len() <= i < left_aligned(s, width).len() ==> #[trigger] left_aligned(s, width)[i] == ' ',
        forall|i: int|
            0 <= i < right_aligned(s, width).len() - s.len() ==> #[trigger] right_aligned(s, width)[i]
                == ' ',
{
    assert(left_aligned(s, width).take(s.len() as int) =~= s);
    assert(right_aligned(s, width).skip(right_aligned(s, width).len() - s.len()) =~= s);
}

/// The outputs that a draw accepts are a multiple of the bound in number, so that
/// every number below it is as likely as every other; fewer than the bound are
/// passed over.
pub proof fn draws_are_uniform(n: u64)
    requires
        n > 0,
    ensures
        (0x1_0000_0000_0000_0000 - threshold(n)) % (n as int) == 0,
        threshold(n) < n,
{
    let m = 0x1_0000_0000_0000_0000int;
    let d = n as int;
    let t = (m - d) % d;
    vstd::arithmetic::div_mod::lemma_mod_bound(m - d, d);
    vstd::arithmetic::div_mod::lemma_fundamental_div_mod(m - d, d);
    let q = (m - d) / d;
    assert(m - t == d * (q + 1)) by (nonlinear_arith)
        requires
            m - d == d * q + t,
    ;
    vstd::arithmetic::mul::lemma_mul_is_commutative(d, q + 1);
    vstd::arithmetic::div_mod::lemma_mod_multiples_basic(q + 1, d);
}

/// Of two numbers without a sign the one with the smaller pattern is less; with a
/// sign it is the other; a number with a sign is less than one without, but for the
/// zeros. What is no number is neither less nor more.
pub proof fn patterns_order_the_numbers(a: u64, b: u64)
    requires
        !not_a_number(a),
        !not_a_number(b),
    ensures
        a < 0x8000_0000_0000_0000 && b < 0x8000_0000_0000_0000 ==> (float_less(a, b) <==> a < b),
        a >= 0x8000_0000_0000_0000 && b >= 0x8000_0000_0000_0000 ==> (float_less(a, b) <==> b < a),
        a > 0x8000_0000_0000_0000 && b < 0x8000_0000_0000_0000 ==> float_less(a, b) && !float_less(b, a),
        !float_less(0x8000_0000_0000_0000, 0),
        !float_less(0, 0x8000_0000_0000_0000),
        forall|x: u64| not_a_number(x) ==> !#[trigger] float_less(x, a) && !float_less(a, x),
{
}

} // verus!
