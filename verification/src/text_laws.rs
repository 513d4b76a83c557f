//! What holds of every text that is trimmed, cut, split or written as a number.

use crate::text;
use vstd::prelude::*;

verus! {

proof fn lemma_trimmed_start(s: Seq<char>) -> (a: int)
    ensures
        0 <= a <= s.len(),
        text::trimmed_start(s) == s.skip(a),
        forall|i: int| 0 <= i < a ==> text::is_white_space(#[trigger] s[i]),
        a < s.len() ==> !text::is_white_space(s[a]),
    decreases s.len(),
{
    if s.len() > 0 && text::is_white_space(s.first()) {
        let rest = s.drop_first();
        let b = lemma_trimmed_start(rest);
        assert(rest.skip(b) =~= s.skip(b + 1));
        assert forall|i: int| 0 <= i < b + 1 implies text::is_white_space(#[trigger] s[i]) by {
            if i > 0 {
                assert(rest[i - 1] == s[i]);
            }
        }
        if b < rest.len() {
            assert(rest[b] == s[b + 1]);
        }
        b + 1
    } else {
        assert(s.skip(0) =~= s);
        0
    }
}

proof fn lemma_trimmed_end(s: Seq<char>) -> (b: int)
    ensures
        0 <= b <= s.len(),
        text::trimmed_end(s) == s.take(b),
        forall|i: int| b <= i < s.len() ==> text::is_white_space(#[trigger] s[i]),
        b > 0 ==> !text::is_white_space(s[b - 1]),
    decreases s.len(),
{
    if s.len() > 0 && text::is_white_space(s.last()) {
        let rest = s.drop_last();
        let b = lemma_trimmed_end(rest);
        assert(rest.take(b) =~= s.take(b));
        assert forall|i: int| b <= i < s.len() implies text::is_white_space(#[trigger] s[i]) by {
            if i < rest.len() {
                assert(rest[i] == s[i]);
            }
        }
        if b > 0 {
            assert(rest[b - 1] == s[b - 1]);
        }
        b
    } else {
        assert(s.take(s.len() as int) =~= s);
        s.len() as int
    }
}

/// Whether what is left of a text is all of it from the first to the last character that
/// is not white space.
pub open spec fn cut_to(s: Seq<char>, a: int, b: int) -> bool {
    &&& 0 <= a <= b <= s.len()
    &&& forall|i: int| 0 <= i < a ==> text::is_white_space(#[trigger] s[i])
    &&& forall|i: int| b <= i < s.len() ==> text::is_white_space(#[trigger] s[i])
    &&& a < b ==> !text::is_white_space(s[a]) && !text::is_white_space(s[b - 1])
}

/// Trimming takes away the white space at both ends and nothing else.
pub proof fn law_trimmed(s: Seq<char>)
    ensures
        exists|a: int, b: int| #[trigger] cut_to(s, a, b) && text::trimmed(s) == s.subrange(a, b),
{
    let a = lemma_trimmed_start(s);
    let rest = s.skip(a);
    let n = lemma_trimmed_end(rest);
    assert(rest.take(n) =~= s.subrange(a, a + n));
    assert forall|i: int| a + n <= i < s.len() implies text::is_white_space(#[trigger] s[i]) by {
        assert(rest[i - a] == s[i]);
    }
    if n > 0 {
        assert(rest[0] == s[a]);
        assert(rest[n - 1] == s[a + n - 1]);
    }
    assert(cut_to(s, a, a + n));
}

/// A text that neither begins nor ends in white space stays as it is, and white space
/// around it is taken away.
pub proof fn law_trimmed_inner(before: Seq<char>, inner: Seq<char>, after: Seq<char>)
    requires
        forall|i: int| 0 <= i < before.len() ==> text::is_white_space(#[trigger] before[i]),
        forall|i: int| 0 <= i < after.len() ==> text::is_white_space(#[trigger] after[i]),
        inner.len() > 0 ==> !text::is_white_space(inner.first()) && !text::is_white_space(
            inner.last(),
        ),
    ensures
        text::trimmed(before + inner + after) == inner,
{
    let s = before + inner + after;
    law_trimmed(s);
    let (a, b) = choose|a: int, b: int| #[trigger]
        cut_to(s, a, b) && text::trimmed(s) == s.subrange(a, b);
    let p = before.len() as int;
    let q = p + inner.len();
    if inner.len() > 0 {
        assert(s[p] == inner.first());
        assert(s[q - 1] == inner.last());
        if a < b {
            if a < p {
                assert(s[a] == before[a]);
            }
            if b > q {
                assert(s[b - 1] == after[b - 1 - q]);
            }
        }
        assert(s.subrange(p, q) =~= inner);
    } else if a < b {
        if a < p {
            assert(s[a] == before[a]);
        } else {
            assert(s[a] == after[a - p]);
        }
    } else {
        assert(s.subrange(a, b) =~= inner);
    }
}

/// Stripping takes away all copies of the character at the end and nothing else.
pub proof fn law_without_trailing(s: Seq<char>, c: char)
    ensures
        ({
            let r = text::without_trailing(s, c);
            &&& r.is_prefix_of(s)
            &&& forall|i: int| r.len() <= i < s.len() ==> #[trigger] s[i] == c
            &&& r.len() > 0 ==> r.last() != c
        }),
    decreases s.len(),
{
    if s.len() > 0 && s.last() == c {
        let rest = s.drop_last();
        law_without_trailing(rest, c);
        let r = text::without_trailing(rest, c);
        assert forall|i: int| r.len() <= i < s.len() implies #[trigger] s[i] == c by {
            if i < rest.len() {
                assert(rest[i] == s[i]);
            }
        }
    }
}

/// A text without a separator is one piece.
pub proof fn law_pieces_whole(s: Seq<char>, seps: Seq<bool>)
    requires
        s.len() == seps.len(),
        forall|i: int| 0 <= i < seps.len() ==> !#[trigger] seps[i],
    ensures
        text::pieces(s, seps) == seq![s],
    decreases s.len(),
{
    if s.len() > 0 {
        law_pieces_whole(s.drop_last(), seps.drop_last());
        assert(s.drop_last().push(s.last()) =~= s);
        assert(text::pieces(s, seps) =~= seq![s]);
    } else {
        assert(s =~= Seq::empty());
    }
}

/// The pieces of two texts with a separator between them are those of the one and then
/// those of the other.
pub proof fn law_pieces_parted(
    a: Seq<char>,
    c: char,
    b: Seq<char>,
    a_seps: Seq<bool>,
    b_seps: Seq<bool>,
)
    requires
        a.len() == a_seps.len(),
        b.len() == b_seps.len(),
    ensures
        text::pieces(a.push(c) + b, a_seps.push(true) + b_seps) == text::pieces(a, a_seps)
            + text::pieces(b, b_seps),
    decreases b.len(),
{
    let s = a.push(c) + b;
    let seps = a_seps.push(true) + b_seps;
    lemma_some_piece(a, a_seps);
    if b.len() == 0 {
        assert(s.drop_last() =~= a);
        assert(seps.drop_last() =~= a_seps);
        assert(text::pieces(s, seps) =~= text::pieces(a, a_seps) + text::pieces(b, b_seps));
    } else {
        assert(s.drop_last() =~= a.push(c) + b.drop_last());
        assert(seps.drop_last() =~= a_seps.push(true) + b_seps.drop_last());
        law_pieces_parted(a, c, b.drop_last(), a_seps, b_seps.drop_last());
        lemma_some_piece(b.drop_last(), b_seps.drop_last());
        assert(text::pieces(s, seps) =~= text::pieces(a, a_seps) + text::pieces(b, b_seps));
    }
}

proof fn lemma_some_piece(s: Seq<char>, seps: Seq<bool>)
    ensures
        text::pieces(s, seps).len() > 0,
    decreases s.len(),
{
    if s.len() > 0 {
        lemma_some_piece(s.drop_last(), seps.drop_last());
    }
}

/// Whether piece `p` is the characters `from..to` of a text, none of them a separator,
/// with a separator or an end of the text on each side.
pub open spec fn is_piece(s: Seq<char>, seps: Seq<bool>, p: Seq<char>, from: int, to: int) -> bool {
    &&& 0 <= from <= to <= s.len()
    &&& p == s.subrange(from, to)
    &&& forall|i: int| from <= i < to ==> !#[trigger] seps[i]
    &&& from == 0 || seps[from - 1]
    &&& to == s.len() || seps[to]
}

proof fn lemma_piece_bounds(s: Seq<char>, seps: Seq<bool>, k: int) -> (r: (int, int))
    requires
        s.len() == seps.len(),
        0 <= k < text::pieces(s, seps).len(),
    ensures
        is_piece(s, seps, text::pieces(s, seps)[k], r.0, r.1),
        k < text::pieces(s, seps).len() - 1 ==> r.1 < s.len(),
        k == text::pieces(s, seps).len() - 1 ==> r.1 == s.len(),
    decreases s.len(),
{
    let n = s.len() as int;
    let ps = text::pieces(s, seps);
    if n == 0 {
        assert(s.subrange(0, 0) =~= Seq::empty());
        (0, 0)
    } else {
        let front = s.drop_last();
        let fs = seps.drop_last();
        let before = text::pieces(front, fs);
        lemma_some_piece(front, fs);
        if k == before.len() {
            assert(s.subrange(n, n) =~= Seq::empty());
            (n, n)
        } else {
            let r = lemma_piece_bounds(front, fs, k);
            assert forall|i: int| r.0 <= i < r.1 implies !#[trigger] seps[i] by {
                assert(fs[i] == seps[i]);
            }
            if r.0 > 0 {
                assert(fs[r.0 - 1] == seps[r.0 - 1]);
            }
            if k == before.len() - 1 && !seps.last() {
                assert(s.subrange(r.0, n) =~= before[k].push(s.last()));
                (r.0, n)
            } else {
                assert(s.subrange(r.0, r.1) =~= front.subrange(r.0, r.1));
                if r.1 < n - 1 {
                    assert(fs[r.1] == seps[r.1]);
                }
                r
            }
        }
    }
}

/// Every piece lies between two separators, or a separator and an end of the text, and
/// has none in it.
pub proof fn law_piece_bounds(s: Seq<char>, seps: Seq<bool>, k: int)
    requires
        s.len() == seps.len(),
        0 <= k < text::pieces(s, seps).len(),
    ensures
        exists|from: int, to: int| #[trigger] is_piece(s, seps, text::pieces(s, seps)[k], from, to),
{
    let (from, to) = lemma_piece_bounds(s, seps, k);
}

/// A number is written in digits alone, and begins with a zero only if it is zero.
pub proof fn law_decimal_digits(n: nat)
    ensures
        text::decimal(n).len() > 0,
        forall|i: int| 0 <= i < text::decimal(n).len() ==> '0' <= #[trigger] text::decimal(n)[i] <= '9',
        text::decimal(n)[0] == '0' ==> n == 0,
        text::number(text::decimal(n)) == n,
    decreases n,
{
    text::law_decimal_reads_back(n);
    if n >= 10 {
        law_decimal_digits(n / 10);
        let d = text::decimal(n);
        let front = text::decimal(n / 10);
        assert forall|i: int| 0 <= i < d.len() implies '0' <= #[trigger] d[i] <= '9' by {
            if i < front.len() {
                assert(d[i] == front[i]);
            }
        }
        assert(d[0] == front[0]);
    }
}

/// A padded number is as wide as asked for, or as the number is if that is wider; it is
/// written in digits alone and reads back.
pub proof fn law_zero_padded_digits(n: nat, width: nat)
    ensures
        ({
            let z = text::zero_padded(n, width);
            &&& z.len() == if text::decimal(n).len() < width {
                width
            } else {
                text::decimal(n).len()
            }
            &&& forall|i: int| 0 <= i < z.len() ==> '0' <= #[trigger] z[i] <= '9'
            &&& text::number(z) == n
        }),
{
    law_decimal_digits(n);
    text::law_zero_padded_reads_back(n, width);
}

/// A number that is negative is written with a minus sign before its absolute value, and
/// any other one without.
pub proof fn law_signed_decimal(n: int)
    ensures
        n >= 0 ==> text::number(text::signed_decimal(n)) == n && '0' <= text::signed_decimal(n)[0]
            <= '9',
        n < 0 ==> text::signed_decimal(n)[0] == '-' && text::number(
            text::signed_decimal(n).drop_first(),
        ) == -n,
{
    if n >= 0 {
        law_decimal_digits(n as nat);
    } else {
        law_decimal_digits((-n) as nat);
        assert(text::signed_decimal(n).drop_first() =~= text::decimal((-n) as nat));
    }
}

proof fn lemma_encode_concat(a: Seq<char>, b: Seq<char>)
    ensures
        vstd::utf8::encode_utf8(a + b) == vstd::utf8::encode_utf8(a) + vstd::utf8::encode_utf8(b),
    decreases a.len(),
{
    if a.len() == 0 {
        assert(a + b =~= b);
        assert(vstd::utf8::encode_utf8(a) + vstd::utf8::encode_utf8(b) =~= vstd::utf8::encode_utf8(b));
    } else {
        lemma_encode_concat(a.drop_first(), b);
        assert((a + b).drop_first() =~= a.drop_first() + b);
        assert((a + b)[0] == a[0]);
        let first = vstd::utf8::encode_scalar(a[0] as u32);
        assert(vstd::utf8::encode_utf8(a + b) =~= vstd::utf8::encode_utf8(a) + vstd::utf8::encode_utf8(b));
    }
}

/// What the first `n` bytes of a text say is the start of the text whose encoding is
/// those bytes, or all of a shorter text.
pub proof fn law_start_bytes(p: Seq<char>, s: Seq<char>, n: nat)
    ensures
        text::is_start(p, s, n as int) <==> p.is_prefix_of(s) && vstd::utf8::encode_utf8(p).len() == if vstd::utf8::encode_utf8(
            s,
        ).len() < n {
            vstd::utf8::encode_utf8(s).len()
        } else {
            n
        },
        text::is_start(p, s, n as int) ==> vstd::utf8::encode_utf8(p) == vstd::utf8::encode_utf8(s).take(
            vstd::utf8::encode_utf8(p).len() as int,
        ),
{
    text::law_byte_len(p);
    text::law_byte_len(s);
    if p.is_prefix_of(s) {
        let rest = s.skip(p.len() as int);
        assert(s =~= p + rest);
        lemma_encode_concat(p, rest);
        assert(vstd::utf8::encode_utf8(p) =~= vstd::utf8::encode_utf8(s).take(vstd::utf8::encode_utf8(p).len() as int));
    }
}

/// A message that quotes a text of at most `n` bytes quotes all of it, and one that
/// quotes a longer text quotes its first `n` bytes.
pub proof fn law_quotes(message: Option<String>, prefix: Seq<char>, s: Seq<char>, n: nat)
    requires
        text::quotes(message, prefix, s, n as int),
    ensures
        vstd::utf8::encode_utf8(s).len() <= n ==> message is Some && message->0@ == prefix + s,
        message matches Some(m) ==> {
            let quoted = m@.skip(prefix.len() as int);
            &&& prefix.is_prefix_of(m@)
            &&& quoted.is_prefix_of(s)
            &&& vstd::utf8::encode_utf8(s).len() > n ==> vstd::utf8::encode_utf8(quoted).len() == n
        },
        message is None ==> forall|p: Seq<char>| #[trigger]
            p.is_prefix_of(s) ==> vstd::utf8::encode_utf8(p).len() != n,
{
    law_start_bytes(s, s, n);
    if let Some(m) = message {
        let p = choose|p: Seq<char>| #[trigger] text::is_start(p, s, n as int) && m@ == prefix + p;
        law_start_bytes(p, s, n);
        assert(m@.skip(prefix.len() as int) =~= p);
        assert(m@.take(prefix.len() as int) =~= prefix);
        if vstd::utf8::encode_utf8(s).len() <= n {
            text::law_start_unique(p, s, s, n as int);
        }
    } else {
        assert forall|p: Seq<char>| #[trigger] p.is_prefix_of(s) implies vstd::utf8::encode_utf8(p).len()
            != n by {
            law_start_bytes(p, s, n);
            assert(!text::is_start(p, s, n as int));
            if vstd::utf8::encode_utf8(p).len() == n {
                let rest = s.skip(p.len() as int);
                assert(s =~= p + rest);
                lemma_encode_concat(p, rest);
            }
        }
    }
}

} // verus!
