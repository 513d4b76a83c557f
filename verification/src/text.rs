//! Text helpers, over the characters of strings.

use vstd::prelude::*;

verus! {

/// `String::push` appends one character.
pub assume_specification[ String::push ](s: &mut String, c: char)
    ensures
        final(s)@ == old(s)@.push(c),
;

/// The lower-case form of a text.
pub uninterp spec fn lower_case(s: Seq<char>) -> Seq<char>;

/// Whether a character is alphabetic or numeric.
pub uninterp spec fn is_alphanumeric(c: char) -> bool;

/// An ASCII letter in lower case; any other character as it is.
pub open spec fn ascii_lower(c: char) -> char {
    if 'A' <= c <= 'Z' {
        (c as u8 + 32) as char
    } else {
        c
    }
}

/// Whether a character is an ASCII letter or digit.
pub open spec fn is_ascii_alphanumeric(c: char) -> bool {
    'a' <= c <= 'z' || 'A' <= c <= 'Z' || '0' <= c <= '9'
}

/// `str::to_lowercase` gives the lower-case form of a text by the Unicode tables;
/// the text alone decides it.  Of an ASCII text it is the text with its letters in
/// lower case.
#[verifier::external_body]
pub(crate) fn to_lower_case(s: &str) -> (t: String)
    ensures
        t@ == lower_case(s@),
        vstd::utf8::is_ascii_chars(s@) ==> t@ == s@.map_values(|c: char| ascii_lower(c)),
{
    s.to_lowercase()
}

/// `char::is_alphanumeric` looks a character up in the Unicode tables; the
/// character alone decides it.  Of the ASCII characters it holds for letters and
/// digits.
#[verifier::external_body]
pub(crate) fn alphanumeric(c: char) -> (r: bool)
    ensures
        r == is_alphanumeric(c),
        c <= '\u{7f}' ==> r == is_ascii_alphanumeric(c),
{
    c.is_alphanumeric()
}

/// `std::str::from_utf8` decodes bytes if they are valid UTF-8, and fails if they
/// are not.
#[verifier::external_body]
pub(crate) fn decode(bytes: &[u8]) -> (s: Option<String>)
    ensures
        s is Some <==> vstd::utf8::valid_utf8(bytes@),
        s matches Some(t) ==> t@ == vstd::utf8::decode_utf8(bytes@),
{
    match std::str::from_utf8(bytes) {
        Ok(s) => Some(s.to_owned()),
        Err(_) => None,
    }
}

/// The text of bytes, with replacement characters where they are not valid UTF-8.
pub uninterp spec fn lossy_text(bytes: Seq<u8>) -> Seq<char>;

/// `String::from_utf8_lossy` decodes bytes, and puts U+FFFD where they are not
/// valid UTF-8; the bytes alone decide the text.  How many replacement characters
/// stand for a run of invalid bytes is not stated.
#[verifier::external_body]
pub(crate) fn decode_lossy(bytes: &[u8]) -> (s: String)
    ensures
        s@ == lossy_text(bytes@),
        vstd::utf8::valid_utf8(bytes@) ==> s@ == vstd::utf8::decode_utf8(bytes@),
{
    String::from_utf8_lossy(bytes).into_owned()
}

/// The characters of a string.
pub fn chars_of(s: &str) -> (chars: Vec<char>)
    ensures
        chars@ == s@,
{
    let mut chars: Vec<char> = Vec::new();
    for c in it: s.chars()
        invariant
            it.seq() == s@,
            chars@ == it.seq().take(it.index() as int),
    {
        chars.push(c);
    }
    assert(chars@ =~= s@);
    chars
}

/// The string of the characters `from..to`.
pub fn string_of(chars: &Vec<char>, from: usize, to: usize) -> (s: String)
    requires
        from <= to <= chars@.len(),
    ensures
        s@ == chars@.subrange(from as int, to as int),
{
    let mut s = String::new();
    let mut i: usize = from;
    while i < to
        invariant
            from <= i <= to <= chars@.len(),
            s@ =~= chars@.subrange(from as int, i as int),
        decreases to - i,
    {
        s.push(chars[i]);
        i = i + 1;
    }
    s
}

/// Whether two strings have the same characters.
pub fn same(a: &str, b: &str) -> (r: bool)
    ensures
        r == (a@ == b@),
{
    let x = chars_of(a);
    let y = chars_of(b);
    assert(x@.subrange(0, x@.len() as int) =~= x@);
    same_chars(&x, 0, x.len(), &y)
}

/// Whether the characters `from..to` of `x` are those of `y`.
pub fn same_chars(x: &Vec<char>, from: usize, to: usize, y: &Vec<char>) -> (r: bool)
    requires
        from <= to <= x@.len(),
    ensures
        r == (x@.subrange(from as int, to as int) == y@),
{
    let ghost part = x@.subrange(from as int, to as int);
    if to - from != y.len() {
        return false;
    }
    let mut i: usize = 0;
    while i < y.len()
        invariant
            from <= to <= x@.len(),
            to - from == y@.len(),
            part == x@.subrange(from as int, to as int),
            i <= y@.len(),
            forall|k: int| 0 <= k < i ==> part[k] == y@[k],
        decreases y.len() - i,
    {
        if x[from + i] != y[i] {
            assert(part[i as int] != y@[i as int]);
            return false;
        }
        i = i + 1;
    }
    assert(part =~= y@);
    true
}

/// The characters with the Unicode property White_Space.
pub open spec fn is_white_space(c: char) -> bool {
    ||| '\u{9}' <= c <= '\u{d}'
    ||| c == '\u{20}'
    ||| c == '\u{85}'
    ||| c == '\u{a0}'
    ||| c == '\u{1680}'
    ||| '\u{2000}' <= c <= '\u{200a}'
    ||| c == '\u{2028}'
    ||| c == '\u{2029}'
    ||| c == '\u{202f}'
    ||| c == '\u{205f}'
    ||| c == '\u{3000}'
}

/// Whether a character is white space.
pub fn white_space(c: char) -> (r: bool)
    ensures
        r == is_white_space(c),
{
    ('\u{9}' <= c && c <= '\u{d}') || c == '\u{20}' || c == '\u{85}' || c == '\u{a0}' || c
        == '\u{1680}' || ('\u{2000}' <= c && c <= '\u{200a}') || c == '\u{2028}' || c == '\u{2029}'
        || c == '\u{202f}' || c == '\u{205f}' || c == '\u{3000}'
}

/// Without the white space at the start.
pub open spec fn trimmed_start(s: Seq<char>) -> Seq<char>
    decreases s.len(),
{
    if s.len() > 0 && is_white_space(s.first()) {
        trimmed_start(s.drop_first())
    } else {
        s
    }
}

/// Without the white space at the end.
pub open spec fn trimmed_end(s: Seq<char>) -> Seq<char>
    decreases s.len(),
{
    if s.len() > 0 && is_white_space(s.last()) {
        trimmed_end(s.drop_last())
    } else {
        s
    }
}

/// Without the white space at both ends.
pub open spec fn trimmed(s: Seq<char>) -> Seq<char> {
    trimmed_end(trimmed_start(s))
}

/// Removes the white space at both ends.
pub fn trim(s: &str) -> (t: String)
    ensures
        t@ == trimmed(s@),
{
    let chars = chars_of(s);
    let mut from: usize = 0;
    assert(chars@.skip(0) =~= chars@);
    while from < chars.len() && white_space(chars[from])
        invariant
            from <= chars@.len(),
            trimmed_start(chars@.skip(from as int)) == trimmed_start(chars@),
        decreases chars.len() - from,
    {
        assert(chars@.skip(from as int).drop_first() =~= chars@.skip(from + 1));
        from = from + 1;
    }
    let ghost rest = chars@.skip(from as int);
    assert(rest == trimmed_start(chars@));
    let mut to: usize = chars.len();
    assert(rest =~= chars@.subrange(from as int, to as int));
    while from < to && white_space(chars[to - 1])
        invariant
            from <= to <= chars@.len(),
            trimmed_end(chars@.subrange(from as int, to as int)) == trimmed_end(rest),
        decreases to,
    {
        assert(chars@.subrange(from as int, to as int).drop_last() =~= chars@.subrange(
            from as int,
            to - 1,
        ));
        to = to - 1;
    }
    string_of(&chars, from, to)
}

/// A decimal digit.
pub open spec fn digit(d: int) -> char {
    if d == 0 {
        '0'
    } else if d == 1 {
        '1'
    } else if d == 2 {
        '2'
    } else if d == 3 {
        '3'
    } else if d == 4 {
        '4'
    } else if d == 5 {
        '5'
    } else if d == 6 {
        '6'
    } else if d == 7 {
        '7'
    } else if d == 8 {
        '8'
    } else {
        '9'
    }
}

/// The decimal digits of a number, without leading zeros.
pub open spec fn decimal(n: nat) -> Seq<char>
    decreases n,
{
    if n < 10 {
        seq![digit(n as int)]
    } else {
        decimal(n / 10).push(digit((n % 10) as int))
    }
}

/// The decimal digits of a number, with leading zeros up to `width` digits.
pub open spec fn zero_padded(n: nat, width: nat) -> Seq<char> {
    let d = decimal(n);
    if d.len() < width {
        Seq::new((width - d.len()) as nat, |i: int| '0') + d
    } else {
        d
    }
}

/// The decimal digits of a number, after a minus sign if it is negative.
pub open spec fn signed_decimal(n: int) -> Seq<char> {
    if n < 0 {
        seq!['-'] + decimal((-n) as nat)
    } else {
        decimal(n as nat)
    }
}

fn digit_char(d: u64) -> (c: char)
    requires
        d < 10,
    ensures
        c == digit(d as int),
{
    match d {
        0 => '0',
        1 => '1',
        2 => '2',
        3 => '3',
        4 => '4',
        5 => '5',
        6 => '6',
        7 => '7',
        8 => '8',
        _ => '9',
    }
}

/// Writes a number in decimal.
pub fn to_decimal(n: u64) -> (s: String)
    ensures
        s@ == decimal(n as nat),
    decreases n,
{
    if n < 10 {
        let mut s = String::new();
        s.push(digit_char(n));
        assert(s@ =~= decimal(n as nat));
        s
    } else {
        let mut s = to_decimal(n / 10);
        s.push(digit_char(n % 10));
        s
    }
}

/// Writes a number in decimal with leading zeros.
pub fn to_zero_padded(n: u64, width: usize) -> (s: String)
    ensures
        s@ == zero_padded(n as nat, width as nat),
{
    let digits = to_decimal(n);
    let len: usize = chars_of(digits.as_str()).len();
    if len >= width {
        return digits;
    }
    let mut s = String::new();
    let mut i: usize = 0;
    while i < width - len
        invariant
            len < width,
            i <= width - len,
            s@ =~= Seq::new(i as nat, |k: int| '0'),
        decreases width - len - i,
    {
        s.push('0');
        i = i + 1;
    }
    s.append(digits.as_str());
    s
}

/// Writes a signed number in decimal.
pub fn to_signed_decimal(n: i32) -> (s: String)
    ensures
        s@ == signed_decimal(n as int),
{
    if n < 0 {
        let mut s = String::new();
        s.push('-');
        s.append(to_decimal((-(n as i64)) as u64).as_str());
        assert(s@ =~= signed_decimal(n as int));
        s
    } else {
        to_decimal(n as u64)
    }
}

/// The characters of each of several strings.
pub open spec fn views(strings: Seq<String>) -> Seq<Seq<char>> {
    strings.map_values(|s: String| s@)
}

/// Without the characters `c` at the end.
pub open spec fn without_trailing(s: Seq<char>, c: char) -> Seq<char>
    decreases s.len(),
{
    if s.len() > 0 && s.last() == c {
        without_trailing(s.drop_last(), c)
    } else {
        s
    }
}

/// Removes the characters `c` at the end.
pub fn strip_trailing(s: &str, c: char) -> (t: String)
    ensures
        t@ == without_trailing(s@, c),
{
    let chars = chars_of(s);
    let mut to: usize = chars.len();
    assert(chars@.subrange(0, to as int) =~= chars@);
    while 0 < to && chars[to - 1] == c
        invariant
            to <= chars@.len(),
            without_trailing(chars@.subrange(0, to as int), c) == without_trailing(chars@, c),
        decreases to,
    {
        assert(chars@.subrange(0, to as int).drop_last() =~= chars@.subrange(0, to - 1));
        to = to - 1;
    }
    string_of(&chars, 0, to)
}

/// The pieces of a text between its separators: the characters at which `seps`
/// holds.  There is one more piece than there are separators.
pub open spec fn pieces(s: Seq<char>, seps: Seq<bool>) -> Seq<Seq<char>>
    decreases s.len(),
{
    if s.len() == 0 {
        seq![Seq::empty()]
    } else {
        let front = pieces(s.drop_last(), seps.drop_last());
        if seps.last() {
            front.push(Seq::empty())
        } else {
            front.update(front.len() - 1, front.last().push(s.last()))
        }
    }
}

/// Splits a text at the characters at which `seps` holds.
pub fn split_where(chars: &Vec<char>, seps: &Vec<bool>) -> (out: Vec<String>)
    requires
        chars@.len() == seps@.len(),
    ensures
        views(out@) == pieces(chars@, seps@),
{
    let mut done: Vec<String> = Vec::new();
    let mut piece = String::new();
    let mut i: usize = 0;
    assert(views(done@).push(piece@) =~= pieces(chars@.take(0), seps@.take(0)));
    while i < chars.len()
        invariant
            i <= chars@.len(),
            chars@.len() == seps@.len(),
            views(done@).push(piece@) == pieces(chars@.take(i as int), seps@.take(i as int)),
        decreases chars.len() - i,
    {
        assert(chars@.take(i + 1).drop_last() =~= chars@.take(i as int));
        assert(seps@.take(i + 1).drop_last() =~= seps@.take(i as int));
        let ghost front = views(done@).push(piece@);
        if seps[i] {
            done.push(piece);
            assert(views(done@) =~= front);
            piece = String::new();
        } else {
            piece.push(chars[i]);
        }
        assert(views(done@).push(piece@) =~= pieces(chars@.take(i + 1), seps@.take(i + 1)));
        i = i + 1;
    }
    assert(chars@.take(i as int) =~= chars@);
    assert(seps@.take(i as int) =~= seps@);
    let ghost front = views(done@).push(piece@);
    done.push(piece);
    assert(views(done@) =~= front);
    done
}

/// Where a text has the character `c`.
pub open spec fn occurrences(s: Seq<char>, c: char) -> Seq<bool> {
    s.map_values(|x: char| x == c)
}

/// Splits a text at each character `c`.
pub fn split_on(s: &str, c: char) -> (out: Vec<String>)
    ensures
        views(out@) == pieces(s@, occurrences(s@, c)),
{
    let chars = chars_of(s);
    let mut seps: Vec<bool> = Vec::new();
    let mut i: usize = 0;
    while i < chars.len()
        invariant
            i <= chars@.len(),
            seps@ =~= occurrences(chars@, c).take(i as int),
        decreases chars.len() - i,
    {
        seps.push(chars[i] == c);
        i = i + 1;
    }
    assert(seps@ =~= occurrences(s@, c));
    split_where(&chars, &seps)
}

/// The number that decimal digits stand for.
pub open spec fn number(s: Seq<char>) -> int
    decreases s.len(),
{
    if s.len() == 0 {
        0
    } else {
        10 * number(s.drop_last()) + (s.last() as int - '0' as int)
    }
}

/// Decimal digits read back as the number that was written.
pub proof fn law_decimal_reads_back(n: nat)
    ensures
        number(decimal(n)) == n,
        decimal(n).len() > 0,
    decreases n,
{
    let d = decimal(n);
    if n < 10 {
        assert(d.drop_last() =~= Seq::empty());
        assert(number(Seq::empty()) == 0);
    } else {
        law_decimal_reads_back(n / 10);
        assert(d.drop_last() =~= decimal(n / 10));
    }
}

/// Leading zeros do not change the number, and give it the width asked for.
pub proof fn law_zero_padded_reads_back(n: nat, width: nat)
    ensures
        number(zero_padded(n, width)) == n,
        zero_padded(n, width).len() >= width,
{
    let d = decimal(n);
    law_decimal_reads_back(n);
    if d.len() < width {
        lemma_leading_zeros((width - d.len()) as nat, d);
    }
}

proof fn lemma_leading_zeros(k: nat, d: Seq<char>)
    ensures
        number(Seq::new(k, |i: int| '0') + d) == number(d),
    decreases k + d.len(),
{
    let z = Seq::new(k, |i: int| '0');
    let s = z + d;
    if d.len() > 0 {
        assert(s.drop_last() =~= z + d.drop_last());
        lemma_leading_zeros(k, d.drop_last());
    } else if k > 0 {
        let y = Seq::new((k - 1) as nat, |i: int| '0');
        assert(s.drop_last() =~= y + d);
        lemma_leading_zeros((k - 1) as nat, d);
    } else {
        assert(s =~= d);
    }
}

/// Numbers below 100 and below 1000 have at most two and three digits.
pub proof fn lemma_decimal_width(n: nat)
    ensures
        n < 100 ==> decimal(n).len() <= 2,
        n < 1000 ==> decimal(n).len() <= 3,
{
    reveal_with_fuel(decimal, 4);
}

/// Adds a text to a list of texts.
pub fn push_text(list: &mut Vec<String>, s: &str)
    ensures
        views(final(list)@) == views(old(list)@).push(s@),
{
    list.push(s.to_owned());
    assert(views(list@) =~= views(old(list)@).push(s@));
}

/// Adds the texts of one list to another.
pub fn append_texts(list: &mut Vec<String>, more: &mut Vec<String>)
    ensures
        views(final(list)@) == views(old(list)@) + views(old(more)@),
        final(more)@ == Seq::<String>::empty(),
{
    list.append(more);
    assert(views(list@) =~= views(old(list)@) + views(old(more)@));
}

/// One text after the other.
pub fn concat(a: &str, b: &str) -> (s: String)
    ensures
        s@ == a@ + b@,
{
    let mut s = a.to_owned();
    s.append(b);
    s
}

/// How many bytes a character takes in UTF-8.
pub open spec fn width(c: char) -> int {
    if (c as u32) < 0x80 {
        1
    } else if (c as u32) < 0x800 {
        2
    } else if (c as u32) < 0x1_0000 {
        3
    } else {
        4
    }
}

/// How many bytes a text takes in UTF-8.
pub open spec fn byte_len(s: Seq<char>) -> int
    decreases s.len(),
{
    if s.len() == 0 {
        0
    } else {
        byte_len(s.drop_last()) + width(s.last())
    }
}

/// Whether `p` is what the first `n` bytes of a text say, or all of a shorter text.
pub open spec fn is_start(p: Seq<char>, s: Seq<char>, n: int) -> bool {
    &&& p.is_prefix_of(s)
    &&& byte_len(p) == if byte_len(s) < n {
        byte_len(s)
    } else {
        n
    }
}

/// A text is as long as its encoding.
pub proof fn law_byte_len(s: Seq<char>)
    ensures
        byte_len(s) == vstd::utf8::encode_utf8(s).len(),
    decreases s.len(),
{
    if s.len() > 0 {
        lemma_byte_len_first(s);
        law_byte_len(s.drop_first());
        vstd::utf8::char_is_scalar(s[0]);
        let first = vstd::utf8::encode_scalar(s[0] as u32);
        assert(first.len() == width(s[0]));
        assert(vstd::utf8::encode_utf8(s) == first + vstd::utf8::encode_utf8(s.drop_first()));
    }
}

proof fn lemma_byte_len_first(s: Seq<char>)
    requires
        s.len() > 0,
    ensures
        byte_len(s) == width(s[0]) + byte_len(s.drop_first()),
    decreases s.len(),
{
    if s.len() == 1 {
        assert(s.drop_last() =~= s.drop_first());
    } else {
        lemma_byte_len_first(s.drop_last());
        assert(s.drop_first().drop_last() =~= s.drop_last().drop_first());
    }
}

proof fn lemma_byte_len_prefix(s: Seq<char>, i: int, k: int)
    requires
        0 <= i <= k <= s.len(),
    ensures
        byte_len(s.take(i)) + (k - i) <= byte_len(s.take(k)),
    decreases k - i,
{
    if i < k {
        lemma_byte_len_prefix(s, i, k - 1);
        assert(s.take(k).drop_last() =~= s.take(k - 1));
    }
}

/// At most one text is what the first `n` bytes of a text say.
pub proof fn law_start_unique(p: Seq<char>, q: Seq<char>, s: Seq<char>, n: int)
    requires
        is_start(p, s, n),
        is_start(q, s, n),
    ensures
        p == q,
{
    assert(p =~= s.take(p.len() as int));
    assert(q =~= s.take(q.len() as int));
    if p.len() < q.len() {
        lemma_byte_len_prefix(s, p.len() as int, q.len() as int);
    } else {
        lemma_byte_len_prefix(s, q.len() as int, p.len() as int);
    }
}

fn char_width(c: char) -> (w: usize)
    ensures
        w == width(c),
{
    let u: u32 = c as u32;
    if u < 0x80 {
        1
    } else if u < 0x800 {
        2
    } else if u < 0x1_0000 {
        3
    } else {
        4
    }
}

/// What the first `n` bytes of a text say, or all of a shorter text; nothing if the
/// cut would part the bytes of one character.
pub fn first_bytes(s: &str, n: usize) -> (start: Option<String>)
    ensures
        match start {
            Some(p) => is_start(p@, s@, n as int),
            None => forall|p: Seq<char>| !is_start(p, s@, n as int),
        },
{
    let chars = chars_of(s);
    let mut left: usize = n;
    let mut i: usize = 0;
    assert(s@.take(0) =~= Seq::<char>::empty());
    while i < chars.len() && left > 0
        invariant
            chars@ == s@,
            i <= chars@.len(),
            left <= n,
            byte_len(s@.take(i as int)) == n - left,
        decreases chars.len() - i,
    {
        let w = char_width(chars[i]);
        assert(s@.take(i + 1).drop_last() =~= s@.take(i as int));
        if w > left {
            proof {
                assert forall|p: Seq<char>| !is_start(p, s@, n as int) by {
                    if is_start(p, s@, n as int) {
                        assert(s@.take(s@.len() as int) =~= s@);
                        lemma_byte_len_prefix(s@, i + 1, s@.len() as int);
                        assert(p =~= s@.take(p.len() as int));
                        if p.len() <= i {
                            lemma_byte_len_prefix(s@, p.len() as int, i as int);
                        } else {
                            lemma_byte_len_prefix(s@, i + 1, p.len() as int);
                        }
                    }
                }
            }
            return None;
        }
        left = left - w;
        i = i + 1;
    }
    proof {
        assert(s@.take(s@.len() as int) =~= s@);
        lemma_byte_len_prefix(s@, i as int, s@.len() as int);
        assert(chars@.subrange(0, i as int) =~= s@.take(i as int));
        assert(s@.take(i as int).is_prefix_of(s@));
    }
    Some(string_of(&chars, 0, i))
}

/// Whether a message is made of `prefix` and of what the first `n` bytes of `s` say;
/// there is none if the cut would part the bytes of one character.
pub open spec fn quotes(message: Option<String>, prefix: Seq<char>, s: Seq<char>, n: int) -> bool {
    match message {
        Some(m) => exists|p: Seq<char>| #[trigger] is_start(p, s, n) && m@ == prefix + p,
        None => forall|p: Seq<char>| !is_start(p, s, n),
    }
}

/// A message made of `prefix` and of what the first `n` bytes of `s` say.
pub fn quote(prefix: &str, s: &str, n: usize) -> (message: Option<String>)
    ensures
        quotes(message, prefix@, s@, n as int),
{
    match first_bytes(s, n) {
        Some(start) => Some(concat(prefix, start.as_str())),
        None => None,
    }
}

} // verus!
