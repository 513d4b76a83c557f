//! What holds of every subtitle and every file of subtitles.

use crate::double;
use crate::ieee;
use crate::srt;
use crate::srt::SrtEntry;
use crate::text;
use crate::text_laws;
use vstd::arithmetic::power2::*;
use vstd::prelude::*;

verus! {

/// Whether a text is a subtitle in a file: a line with its number, a line with its times,
/// its whole text, and an empty line.
pub open spec fn is_subtitle(
    b: Seq<char>,
    number: nat,
    from: Seq<char>,
    to: Seq<char>,
    content: Seq<char>,
) -> bool {
    let n = b.len() as int;
    let end = n - 2 - content.len();
    let digits = end - 1 - from.len() - to.len() - 6;
    // the empty line
    &&& b[n - 1] == '\n' && b[n - 2] == '\n'
    // the text
    &&& end >= 1
    &&& b.subrange(end, n - 2) == content
    &&& b[end - 1] == '\n'
    // the times, with an arrow between them
    &&& digits >= 1
    &&& b[digits] == '\n'
    &&& b.subrange(digits + 1, digits + 1 + from.len()) == from
    &&& b.subrange(end - 1 - to.len(), end - 1) == to
    &&& b.subrange(digits + 1 + from.len(), end - 1 - to.len()) == seq![' ', '-', '-', '>', ' ']
    // the number
    &&& text::number(b.take(digits)) == number
    &&& forall|i: int| 0 <= i < digits ==> '0' <= #[trigger] b[i] <= '9'
}

/// A subtitle with a text stands in a file with its number, its times and all of its text,
/// however long that is; one that is blank does not stand there.
pub proof fn law_block(number: nat, start: u64, end: u64, content: Seq<char>)
    ensures
        text::trimmed(content).len() > 0 ==> is_subtitle(
            srt::block(number as int, start, end, content),
            number,
            srt::timestamp(srt::millis(start)),
            srt::timestamp(srt::millis(end)),
            text::trimmed(content),
        ),
        text::trimmed(content).len() == 0 ==> srt::block(number as int, start, end, content)
            == Seq::<char>::empty(),
{
    let t = text::trimmed(content);
    if t.len() > 0 {
        reveal_strlit("\n");
        reveal_strlit(" --> ");
        reveal_strlit("\n\n");
        let b = srt::block(number as int, start, end, content);
        let d = text::decimal(number);
        let from = srt::timestamp(srt::millis(start));
        let to = srt::timestamp(srt::millis(end));
        text_laws::law_decimal_digits(number);
        let n = b.len() as int;
        let stop = n - 2 - t.len();
        let digits = d.len() as int;
        assert(digits == stop - 1 - from.len() - to.len() - 6);
        assert(b.take(digits) =~= d);
        assert(b.subrange(digits + 1, digits + 1 + from.len()) =~= from);
        assert(b.subrange(digits + 1 + from.len(), stop - 1 - to.len()) =~= seq![
            ' ',
            '-',
            '-',
            '>',
            ' ',
        ]);
        assert(b.subrange(stop - 1 - to.len(), stop - 1) =~= to);
        assert(b.subrange(stop, n - 2) =~= t);
        assert forall|i: int| 0 <= i < digits implies '0' <= #[trigger] b[i] <= '9' by {
            assert(b[i] == d[i]);
        }
    }
}

/// A file is its subtitles one after the other, and each is numbered by its place, those
/// that are blank included.
pub proof fn law_srt_file(before: Seq<SrtEntry>, entry: SrtEntry)
    ensures
        srt::srt_file(Seq::empty()) == Seq::<char>::empty(),
        ({
            let file = srt::srt_file(before.push(entry));
            let old = srt::srt_file(before);
            let content = text::trimmed(entry.text@);
            &&& old.is_prefix_of(file)
            &&& content.len() == 0 ==> file == old
            &&& content.len() > 0 ==> is_subtitle(
                file.skip(old.len() as int),
                before.len() + 1,
                srt::timestamp(srt::millis(entry.start)),
                srt::timestamp(srt::millis(entry.end)),
                content,
            )
        }),
{
    let entries = before.push(entry);
    assert(entries.drop_last() =~= before);
    law_block(before.len() + 1, entry.start, entry.end, entry.text@);
    let b = srt::block(before.len() as int + 1, entry.start, entry.end, entry.text@);
    let old = srt::srt_file(before);
    let file = srt::srt_file(entries);
    assert(file == old + b);
    assert(file.take(old.len() as int) =~= old);
    assert(file.skip(old.len() as int) =~= b);
    assert(old + Seq::<char>::empty() =~= old);
}

/// A time in milliseconds is within half a millisecond of the time in seconds, but for one
/// rounding of the product to double precision; times below zero and NaN are zero.
pub proof fn law_millis(seconds: u64)
    ensures
        0 <= srt::millis(seconds) <= u64::MAX,
        double::double_is_nan(seconds) || double::double_negative(seconds) ==> srt::millis(seconds)
            == 0,
        !double::double_is_nan(seconds) && !double::double_negative(seconds) && 1000
            * double::double_magnitude(seconds) <= 0x8000_0000_0000_0000 * pow2(1074) ==> {
            let one = pow2(1074) as int;
            let error = 2 * (srt::millis(seconds) * one) - 2000 * double::double_magnitude(seconds);
            let slack = 0x20_0000_0000_0000 * one + 2000 * double::double_magnitude(seconds);
            -slack <= 0x20_0000_0000_0000 * error <= slack
        },
{
    let one = pow2(1074) as int;
    lemma_pow2_pos(1074);
    if !double::double_is_nan(seconds) && !double::double_negative(seconds) {
        let m = double::double_magnitude(seconds);
        lemma_magnitude_positive(seconds);
        let x = (m * 1000) as nat;
        let p = ieee::round_to_width(x, 53);
        lemma2_to64();
        lemma2_to64_rest();
        let l = ieee::bit_length(x);
        if l > 53 {
            let unit = pow2((l - 53) as nat);
            lemma_pow2_pos((l - 53) as nat);
            srt::lemma_unit(x, 53);
            srt::lemma_rounding_error(x, unit);
            assert(unit * 0x10_0000_0000_0000 <= x);
        } else {
            assert(p == x);
        }
        let q = (2 * p + one) / (2 * one);
        vstd::arithmetic::div_mod::lemma_fundamental_div_mod(2 * p + one, 2 * one);
        vstd::arithmetic::div_mod::lemma_mod_bound(2 * p + one, 2 * one);
        vstd::arithmetic::div_mod::lemma_div_pos_is_pos(2 * p + one, 2 * one);
        let t = q * one;
        assert((2 * one) * q == 2 * t) by (nonlinear_arith)
            requires
                t == q * one,
        ;
        if 1000 * m <= 0x8000_0000_0000_0000 * one {
            assert(q <= u64::MAX) by {
                assert(2 * p <= 3 * x);
                assert(2 * t <= 3 * x + one);
                assert(q <= u64::MAX) by (nonlinear_arith)
                    requires
                        2 * (q * one) <= 3 * x + one,
                        x <= 0x8000_0000_0000_0000 * one,
                        one > 0,
                ;
            }
        }
    }
}

proof fn lemma_magnitude_positive(bits: u64)
    ensures
        double::double_magnitude(bits) >= 0,
{
    lemma_pow2_pos(double::double_scale(bits));
    let s = double::double_significand(bits);
    let k = pow2(double::double_scale(bits));
    assert(s * k >= 0) by (nonlinear_arith)
        requires
            s >= 0,
            k > 0,
    ;
}

/// A timestamp is written in digits, but for two colons and a comma, and hours have two
/// digits unless they need more.
pub proof fn law_timestamp_digits(ms: int)
    requires
        ms >= 0,
    ensures
        ({
            let t = srt::timestamp(ms);
            let n = t.len() as int;
            &&& ms < 360_000_000 ==> n == 12
            &&& forall|i: int|
                0 <= i < n && i != n - 10 && i != n - 7 && i != n - 4 ==> '0' <= #[trigger] t[i]
                    <= '9'
        }),
{
    let h = (ms / 3_600_000) as nat;
    let m = ((ms / 60_000) % 60) as nat;
    let s = ((ms / 1000) % 60) as nat;
    let i = (ms % 1000) as nat;
    text_laws::law_zero_padded_digits(h, 2);
    text_laws::law_zero_padded_digits(m, 2);
    text_laws::law_zero_padded_digits(s, 2);
    text_laws::law_zero_padded_digits(i, 3);
    text::lemma_decimal_width(h);
    text::lemma_decimal_width(m);
    text::lemma_decimal_width(s);
    text::lemma_decimal_width(i);
    let a = text::zero_padded(h, 2);
    let b = text::zero_padded(m, 2);
    let c = text::zero_padded(s, 2);
    let d = text::zero_padded(i, 3);
    srt::lemma_fields(a, b, c, d);
    let t = srt::timestamp(ms);
    let n = t.len() as int;
    assert(t == a + ":"@ + b + ":"@ + c + ","@ + d);
    reveal_strlit(":");
    reveal_strlit(",");
    assert forall|k: int|
        0 <= k < n && k != n - 10 && k != n - 7 && k != n - 4 implies '0' <= #[trigger] t[k]
        <= '9' by {
        if k < n - 10 {
            assert(t.subrange(0, n - 10)[k] == t[k]);
            assert('0' <= a[k] <= '9');
        } else if k < n - 7 {
            assert(t.subrange(n - 9, n - 7)[k - (n - 9)] == t[k]);
            assert('0' <= b[k - (n - 9)] <= '9');
        } else if k < n - 4 {
            assert(t.subrange(n - 6, n - 4)[k - (n - 6)] == t[k]);
            assert('0' <= c[k - (n - 6)] <= '9');
        } else {
            assert(t.subrange(n - 3, n)[k - (n - 3)] == t[k]);
            assert('0' <= d[k - (n - 3)] <= '9');
        }
    }
}

} // verus!
