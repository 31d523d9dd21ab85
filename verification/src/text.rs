//! Strings as sequences of characters: the handful of text operations that
//! the rest of the library is written with, each stated over `Seq<char>`.

use vstd::prelude::*;

verus! {

/// The Unicode `White_Space` property.
pub open spec fn is_space(c: char) -> bool {
    let n = c as u32;
    ||| 0x09 <= n <= 0x0d
    ||| n == 0x20
    ||| n == 0x85
    ||| n == 0xa0
    ||| n == 0x1680
    ||| 0x2000 <= n <= 0x200a
    ||| n == 0x2028
    ||| n == 0x2029
    ||| n == 0x202f
    ||| n == 0x205f
    ||| n == 0x3000
}

/// `c` with an ASCII capital made small.
pub open spec fn ascii_lower(c: char) -> char {
    if 'A' <= c <= 'Z' {
        ((c as u32) + 32) as char
    } else {
        c
    }
}

/// `s` with its ASCII capitals made small.
pub open spec fn ascii_fold(s: Seq<char>) -> Seq<char> {
    s.map_values(|c: char| ascii_lower(c))
}

/// `s` without leading white space.
pub open spec fn trimmed_start(s: Seq<char>) -> Seq<char>
    decreases s.len(),
{
    if s.len() > 0 && is_space(s[0]) {
        trimmed_start(s.drop_first())
    } else {
        s
    }
}

/// `s` without trailing white space.
pub open spec fn trimmed_end(s: Seq<char>) -> Seq<char>
    decreases s.len(),
{
    if s.len() > 0 && is_space(s.last()) {
        trimmed_end(s.drop_last())
    } else {
        s
    }
}

/// `s` without white space at either end.
pub open spec fn trimmed(s: Seq<char>) -> Seq<char> {
    trimmed_end(trimmed_start(s))
}

/// Whether `p` stands in `s` from position `i` on.
pub open spec fn holds_at(s: Seq<char>, p: Seq<char>, i: int) -> bool {
    0 <= i && i + p.len() <= s.len() && s.subrange(i, i + p.len()) == p
}

/// Whether `p` stands somewhere in `s`.
pub open spec fn holds(s: Seq<char>, p: Seq<char>) -> bool {
    exists|i: int| holds_at(s, p, i)
}

/// Whether `s` ends in `p`.
pub open spec fn ends_in(s: Seq<char>, p: Seq<char>) -> bool {
    holds_at(s, p, s.len() - p.len())
}

/// The position of the first `c` in `s`, or the length of `s`.
pub open spec fn position(s: Seq<char>, c: char) -> int
    decreases s.len(),
{
    if s.len() == 0 || s[0] == c {
        0
    } else {
        1 + position(s.drop_first(), c)
    }
}

/// The pieces of `s` between the occurrences of `c`.
pub open spec fn pieces(s: Seq<char>, c: char) -> Seq<Seq<char>>
    decreases s.len(),
{
    let i = position(s, c);
    if 0 <= i < s.len() {
        seq![s.take(i)] + pieces(s.skip(i + 1), c)
    } else {
        seq![s]
    }
}

/// A line without the carriage return that came before its newline.
pub open spec fn without_cr(line: Seq<char>) -> Seq<char> {
    if line.len() > 0 && line.last() == '\r' {
        line.drop_last()
    } else {
        line
    }
}

/// The lines of `s`, without their terminators. A final newline ends the
/// last line; it does not start another.
pub open spec fn lines(s: Seq<char>) -> Seq<Seq<char>>
    decreases s.len(),
{
    if s.len() == 0 {
        Seq::empty()
    } else {
        let i = position(s, '\n');
        if 0 <= i < s.len() {
            seq![without_cr(s.take(i))] + lines(s.skip(i + 1))
        } else {
            seq![s]
        }
    }
}

/// How many characters of `s` come before its first white space.
pub open spec fn word_len(s: Seq<char>) -> int
    decreases s.len(),
{
    if s.len() == 0 || is_space(s[0]) {
        0
    } else {
        1 + word_len(s.drop_first())
    }
}

/// The words of `s`: what stands between white space.
pub open spec fn words(s: Seq<char>) -> Seq<Seq<char>>
    decreases s.len(),
    via words_decreases
{
    let t = trimmed_start(s);
    if t.len() == 0 {
        Seq::empty()
    } else {
        seq![t.take(word_len(t))] + words(t.skip(word_len(t)))
    }
}

#[via_fn]
proof fn words_decreases(s: Seq<char>) {
    let t = trimmed_start(s);
    lemma_trimmed_start_is(s);
    lemma_word_len(t);
}

proof fn lemma_word_len(s: Seq<char>)
    ensures
        0 <= word_len(s) <= s.len(),
        s.len() > 0 && !is_space(s[0]) ==> word_len(s) > 0,
        word_len(s) < s.len() ==> is_space(s[word_len(s)]),
        forall|j: int| 0 <= j < word_len(s) ==> !is_space(#[trigger] s[j]),
    decreases s.len(),
{
    if s.len() > 0 && !is_space(s[0]) {
        let t = s.drop_first();
        lemma_word_len(t);
        assert forall|j: int| 0 <= j < word_len(s) implies !is_space(#[trigger] s[j]) by {
            if j > 0 {
                assert(t[j - 1] == s[j]);
            }
        }
    }
}

proof fn lemma_word_len_is(s: Seq<char>, n: int)
    requires
        0 <= n <= s.len(),
        forall|j: int| 0 <= j < n ==> !is_space(#[trigger] s[j]),
        n < s.len() ==> is_space(s[n]),
    ensures
        word_len(s) == n,
{
    lemma_word_len(s);
    let m = word_len(s);
    if m < n {
        assert(!is_space(s[m]));
    } else if n < m {
        assert(!is_space(s[n]));
    }
}

/// `s` with every `from` made a `to`.
pub open spec fn replaced(s: Seq<char>, from: char, to: char) -> Seq<char> {
    s.map_values(|c: char| if c == from { to } else { c })
}

/// The parts in order, with `sep` between each two.
pub open spec fn joined(parts: Seq<Seq<char>>, sep: Seq<char>) -> Seq<char>
    decreases parts.len(),
{
    if parts.len() == 0 {
        Seq::empty()
    } else if parts.len() == 1 {
        parts[0]
    } else {
        joined(parts.drop_last(), sep) + sep + parts.last()
    }
}

/// The value of a decimal digit.
pub open spec fn digit_value(c: char) -> nat {
    ((c as u32) - ('0' as u32)) as nat
}

pub open spec fn is_digit(c: char) -> bool {
    '0' <= c <= '9'
}

pub open spec fn all_digits(s: Seq<char>) -> bool {
    forall|i: int| 0 <= i < s.len() ==> is_digit(#[trigger] s[i])
}

/// The number that a row of decimal digits writes.
pub open spec fn decimal_value(s: Seq<char>) -> nat
    decreases s.len(),
{
    if s.len() == 0 {
        0
    } else {
        decimal_value(s.drop_last()) * 10 + digit_value(s.last())
    }
}

pub open spec fn digit_char(d: nat) -> char {
    (('0' as u32) + d) as char
}

/// `n` in decimal, without leading zeros.
pub open spec fn decimal(n: nat) -> Seq<char>
    decreases n,
{
    if n < 10 {
        seq![digit_char(n)]
    } else {
        decimal(n / 10).push(digit_char(n % 10))
    }
}

/// What a text writes as an unsigned number: an optional plus sign, then
/// digits only, at least one.
pub open spec fn number_in(s: Seq<char>) -> Option<nat> {
    let digits = if s.len() > 0 && s[0] == '+' { s.drop_first() } else { s };
    if digits.len() > 0 && all_digits(digits) {
        Some(decimal_value(digits))
    } else {
        None
    }
}

/// The order of strings: by the first character in which they differ, a
/// proper prefix before what it begins.
pub open spec fn text_less(a: Seq<char>, b: Seq<char>) -> bool
    decreases a.len(),
{
    if a.len() == 0 {
        b.len() > 0
    } else if b.len() == 0 {
        false
    } else if a[0] != b[0] {
        a[0] < b[0]
    } else {
        text_less(a.drop_first(), b.drop_first())
    }
}

/// The name of what `str::to_lowercase` gives for a text.
pub uninterp spec fn lowercase(s: Seq<char>) -> Seq<char>;

/// Wraps `str::to_lowercase`, whose result depends on the text alone. A text
/// of ASCII characters has its capitals made small and nothing else changed.
#[verifier::external_body]
pub(crate) fn to_lowercase(s: &str) -> (r: String)
    ensures
        r@ == lowercase(s@),
        s.is_ascii() ==> r@ == ascii_fold(s@),
{
    s.to_lowercase()
}

/// Wraps `String`'s `FromIterator<&char>`: the string made of exactly these
/// characters, in this order.
#[verifier::external_body]
pub(crate) fn text_of(chars: &[char]) -> (r: String)
    ensures
        r@ == chars@,
{
    String::from_iter(chars)
}

/// Wraps `std::str::from_utf8`: the text that the bytes encode, where they are
/// valid UTF-8, and nothing elsewhere.
#[verifier::external_body]
pub(crate) fn utf8_text(bytes: &[u8]) -> (r: Option<String>)
    ensures
        match r {
            Some(s) => vstd::utf8::valid_utf8(bytes@) && s@ == vstd::utf8::decode_utf8(bytes@),
            None => !vstd::utf8::valid_utf8(bytes@),
        },
{
    std::str::from_utf8(bytes).ok().map(|s| s.to_owned())
}

/// The name of what `String::from_utf8_lossy` gives for a row of bytes.
pub uninterp spec fn lossy_utf8(bytes: Seq<u8>) -> Seq<char>;

/// Wraps `String::from_utf8_lossy`, whose result depends on the bytes alone:
/// the text that they encode where they are valid UTF-8, and elsewhere that
/// text with replacement characters for what is not.
#[verifier::external_body]
pub(crate) fn utf8_text_lossy(bytes: &[u8]) -> (r: String)
    ensures
        r@ == lossy_utf8(bytes@),
        vstd::utf8::valid_utf8(bytes@) ==> r@ == vstd::utf8::decode_utf8(bytes@),
{
    String::from_utf8_lossy(bytes).into_owned()
}

/// The characters of `s`.
pub fn chars_of(s: &str) -> (r: Vec<char>)
    ensures
        r@ == s@,
{
    let mut out: Vec<char> = Vec::new();
    for c in it: s.chars()
        invariant
            out@ == s@.take(it.index()),
            it.seq() == s@,
    {
        out.push(c);
    }
    out
}

/// The characters of `s` from `from` up to `to`, as a string.
pub fn slice_text(s: &Vec<char>, from: usize, to: usize) -> (r: String)
    requires
        from <= to <= s@.len(),
    ensures
        r@ == s@.subrange(from as int, to as int),
{
    text_of(vstd::slice::slice_subrange(s.as_slice(), from, to))
}

pub fn space_char(c: char) -> (r: bool)
    ensures
        r == is_space(c),
{
    let n: u32 = c as u32;
    (0x09 <= n && n <= 0x0d) || n == 0x20 || n == 0x85 || n == 0xa0 || n == 0x1680 || (0x2000 <= n
        && n <= 0x200a) || n == 0x2028 || n == 0x2029 || n == 0x202f || n == 0x205f || n == 0x3000
}

pub fn lower_char(c: char) -> (r: char)
    ensures
        r == ascii_lower(c),
{
    if 'A' <= c && c <= 'Z' {
        ((c as u8) + 32) as char
    } else {
        c
    }
}

pub fn same_text(a: &str, b: &str) -> (r: bool)
    ensures
        r == (a@ == b@),
{
    a.to_owned() == b.to_owned()
}

/// Whether the two texts are equal but for the case of ASCII letters.
pub fn same_ignoring_case(a: &str, b: &str) -> (r: bool)
    ensures
        r == (ascii_fold(a@) == ascii_fold(b@)),
{
    let x = chars_of(a);
    let y = chars_of(b);
    if x.len() != y.len() {
        assert(ascii_fold(a@).len() != ascii_fold(b@).len());
        return false;
    }
    let mut i: usize = 0;
    while i < x.len()
        invariant
            x@ == a@,
            y@ == b@,
            x@.len() == y@.len(),
            i <= x@.len(),
            forall|j: int| 0 <= j < i ==> ascii_lower(#[trigger] x@[j]) == ascii_lower(y@[j]),
        decreases x.len() - i,
    {
        if lower_char(x[i]) != lower_char(y[i]) {
            assert(ascii_fold(a@)[i as int] != ascii_fold(b@)[i as int]);
            return false;
        }
        i += 1;
    }
    assert(ascii_fold(a@) =~= ascii_fold(b@));
    true
}

/// Whether `p` stands in `s` from position `i` on.
fn chars_hold_at(s: &Vec<char>, p: &Vec<char>, i: usize) -> (r: bool)
    ensures
        r == holds_at(s@, p@, i as int),
{
    if i > s.len() || p.len() > s.len() - i {
        return false;
    }
    let mut k: usize = 0;
    while k < p.len()
        invariant
            k <= p@.len(),
            i + p@.len() <= s.len(),
            forall|j: int| 0 <= j < k ==> s@[i + j] == #[trigger] p@[j],
        decreases p.len() - k,
    {
        if s[i + k] != p[k] {
            assert(s@.subrange(i as int, i + p@.len())[k as int] != p@[k as int]);
            return false;
        }
        k += 1;
    }
    assert(s@.subrange(i as int, i + p@.len()) =~= p@);
    true
}

pub fn has_prefix(s: &str, p: &str) -> (r: bool)
    ensures
        r == holds_at(s@, p@, 0),
{
    chars_hold_at(&chars_of(s), &chars_of(p), 0)
}

pub fn has_suffix(s: &str, p: &str) -> (r: bool)
    ensures
        r == ends_in(s@, p@),
{
    let x = chars_of(s);
    let y = chars_of(p);
    if y.len() > x.len() {
        return false;
    }
    chars_hold_at(&x, &y, x.len() - y.len())
}

pub fn has_substring(s: &str, p: &str) -> (r: bool)
    ensures
        r == holds(s@, p@),
{
    let x = chars_of(s);
    let y = chars_of(p);
    let mut i: usize = 0;
    while i < x.len()
        invariant
            x@ == s@,
            y@ == p@,
            i <= x@.len(),
            forall|j: int| 0 <= j < i ==> !holds_at(s@, p@, j),
        decreases x.len() - i,
    {
        if chars_hold_at(&x, &y, i) {
            return true;
        }
        i += 1;
    }
    chars_hold_at(&x, &y, i)
}

pub proof fn lemma_trimmed_start_skip(s: Seq<char>, i: int)
    requires
        0 <= i <= s.len(),
        forall|j: int| 0 <= j < i ==> is_space(#[trigger] s[j]),
    ensures
        trimmed_start(s) == trimmed_start(s.skip(i)),
    decreases i,
{
    if i > 0 {
        let t = s.drop_first();
        assert forall|j: int| 0 <= j < i - 1 implies is_space(#[trigger] t[j]) by {
            assert(t[j] == s[j + 1]);
        }
        lemma_trimmed_start_skip(t, i - 1);
        assert(t.skip(i - 1) =~= s.skip(i));
        assert(is_space(s[0]));
    } else {
        assert(s.skip(0) =~= s);
    }
}

pub proof fn lemma_trimmed_end_take(s: Seq<char>, i: int)
    requires
        0 <= i <= s.len(),
        forall|j: int| i <= j < s.len() ==> is_space(#[trigger] s[j]),
    ensures
        trimmed_end(s) == trimmed_end(s.take(i)),
    decreases s.len() - i,
{
    if i < s.len() {
        let t = s.drop_last();
        assert forall|j: int| i <= j < t.len() implies is_space(#[trigger] t[j]) by {
            assert(t[j] == s[j]);
        }
        lemma_trimmed_end_take(t, i);
        assert(t.take(i) =~= s.take(i));
        assert(is_space(s[s.len() - 1]));
    } else {
        assert(s.take(i) =~= s);
    }
}

/// What trimming the start removes is white space, and what is left does not
/// begin with any.
pub proof fn lemma_trimmed_start_is(s: Seq<char>)
    ensures
        trimmed_start(s).len() <= s.len(),
        trimmed_start(s) == s.skip(s.len() - trimmed_start(s).len()),
        forall|j: int| 0 <= j < s.len() - trimmed_start(s).len() ==> is_space(#[trigger] s[j]),
        trimmed_start(s).len() > 0 ==> !is_space(trimmed_start(s)[0]),
    decreases s.len(),
{
    if s.len() > 0 && is_space(s[0]) {
        let t = s.drop_first();
        lemma_trimmed_start_is(t);
        let k = s.len() - trimmed_start(s).len();
        assert(t.skip(k - 1) =~= s.skip(k));
        assert forall|j: int| 0 <= j < k implies is_space(#[trigger] s[j]) by {
            if j > 0 {
                assert(t[j - 1] == s[j]);
            }
        }
    } else {
        assert(s.skip(0) =~= s);
    }
}

/// What trimming the end removes is white space, and what is left does not end
/// in any.
pub proof fn lemma_trimmed_end_is(s: Seq<char>)
    ensures
        trimmed_end(s).len() <= s.len(),
        trimmed_end(s) == s.take(trimmed_end(s).len() as int),
        forall|j: int| trimmed_end(s).len() <= j < s.len() ==> is_space(#[trigger] s[j]),
        trimmed_end(s).len() > 0 ==> !is_space(trimmed_end(s).last()),
    decreases s.len(),
{
    if s.len() > 0 && is_space(s.last()) {
        let t = s.drop_last();
        lemma_trimmed_end_is(t);
        let k = trimmed_end(s).len() as int;
        assert(t.take(k) =~= s.take(k));
        assert forall|j: int| k <= j < s.len() implies is_space(#[trigger] s[j]) by {
            if j < t.len() {
                assert(t[j] == s[j]);
            }
        }
    } else {
        assert(s.take(s.len() as int) =~= s);
    }
}

/// Where the text that trimming leaves begins and ends.
pub proof fn lemma_trimmed_is(s: Seq<char>) -> (r: (int, int))
    ensures
        0 <= r.0 <= r.1 <= s.len(),
        trimmed(s) == s.subrange(r.0, r.1),
        forall|j: int| 0 <= j < r.0 ==> is_space(#[trigger] s[j]),
        forall|j: int| r.1 <= j < s.len() ==> is_space(#[trigger] s[j]),
        r.0 < r.1 ==> !is_space(s[r.0]) && !is_space(s[r.1 - 1]),
{
    let t = trimmed_start(s);
    lemma_trimmed_start_is(s);
    lemma_trimmed_end_is(t);
    let a = s.len() - t.len();
    let b = a + trimmed_end(t).len();
    assert(trimmed(s) =~= s.subrange(a, b));
    assert forall|j: int| b <= j < s.len() implies is_space(#[trigger] s[j]) by {
        assert(t[j - a] == s[j]);
    }
    if a < b {
        assert(t[0] == s[a]);
        assert(trimmed_end(t).last() == s[b - 1]);
    }
    (a, b)
}

/// What is left between outer white space is what trimming leaves.
pub proof fn lemma_trimmed_eq(s: Seq<char>, a: int, b: int)
    requires
        0 <= a <= b <= s.len(),
        forall|j: int| 0 <= j < a ==> is_space(#[trigger] s[j]),
        forall|j: int| b <= j < s.len() ==> is_space(#[trigger] s[j]),
        a < b ==> !is_space(s[a]) && !is_space(s[b - 1]),
    ensures
        trimmed(s) == s.subrange(a, b),
{
    let (x, y) = lemma_trimmed_is(s);
    if a < b {
        assert(x <= a) by {
            if a < x {
                assert(is_space(s[a]));
            }
        }
        assert(y >= b) by {
            if y <= b - 1 {
                assert(is_space(s[b - 1]));
            }
        }
        assert(x == a) by {
            if x < a {
                assert(is_space(s[x]));
            }
        }
        assert(y == b) by {
            if y > b {
                assert(is_space(s[y - 1]));
            }
        }
    } else {
        if x < y {
            if x < a {
                assert(is_space(s[x]));
            } else {
                assert(is_space(s[x]));
            }
        }
        assert(s.subrange(x, y) =~= s.subrange(a, b));
    }
}

/// White space around a text does not change what trimming leaves of it.
pub proof fn lemma_trimmed_inner(s: Seq<char>, a: int, b: int)
    requires
        0 <= a <= b <= s.len(),
        forall|j: int| 0 <= j < a ==> is_space(#[trigger] s[j]),
        forall|j: int| b <= j < s.len() ==> is_space(#[trigger] s[j]),
    ensures
        trimmed(s) == trimmed(s.subrange(a, b)),
{
    let m = s.subrange(a, b);
    let (x, y) = lemma_trimmed_is(m);
    assert forall|j: int| 0 <= j < a + x implies is_space(#[trigger] s[j]) by {
        if j >= a {
            assert(m[j - a] == s[j]);
        }
    }
    assert forall|j: int| a + y <= j < s.len() implies is_space(#[trigger] s[j]) by {
        if j < b {
            assert(m[j - a] == s[j]);
        }
    }
    if x < y {
        assert(m[x] == s[a + x]);
        assert(m[y - 1] == s[a + y - 1]);
    }
    lemma_trimmed_eq(s, a + x, a + y);
    assert(m.subrange(x, y) =~= s.subrange(a + x, a + y));
}

pub proof fn lemma_trimmed_twice(s: Seq<char>)
    ensures
        trimmed(trimmed(s)) == trimmed(s),
{
    let (a, b) = lemma_trimmed_is(s);
    lemma_trimmed_inner(s, a, b);
}

pub proof fn lemma_trimmed_without_cr(s: Seq<char>)
    ensures
        trimmed(without_cr(s)) == trimmed(s),
{
    if s.len() > 0 && s.last() == '\r' {
        lemma_trimmed_inner(s, 0, s.len() - 1);
        assert(s.subrange(0, s.len() - 1) =~= s.drop_last());
    }
}

/// Splitting gives at least one piece.
pub proof fn lemma_pieces_some(s: Seq<char>, c: char)
    ensures
        pieces(s, c).len() > 0,
{
}

/// Whether `c` does not occur in `s`.
pub open spec fn lacks(s: Seq<char>, c: char) -> bool {
    forall|j: int| 0 <= j < s.len() ==> #[trigger] s[j] != c
}

pub proof fn lemma_lines_lack_newline(s: Seq<char>)
    ensures
        forall|k: int| 0 <= k < lines(s).len() ==> lacks(#[trigger] lines(s)[k], '\n'),
    decreases s.len(),
{
    if s.len() > 0 {
        lemma_position_is(s, '\n');
        let i = position(s, '\n');
        if i < s.len() {
            lemma_lines_lack_newline(s.skip(i + 1));
            let first = without_cr(s.take(i));
            assert(lacks(first, '\n')) by {
                assert forall|j: int| 0 <= j < first.len() implies #[trigger] first[j] != '\n' by {
                    assert(first[j] == s[j]);
                }
            }
            let rest = lines(s.skip(i + 1));
            assert forall|k: int| 0 <= k < lines(s).len() implies lacks(
                #[trigger] lines(s)[k],
                '\n',
            ) by {
                if k > 0 {
                    assert(lines(s)[k] == rest[k - 1]);
                }
            }
        }
    }
}

/// A joined list begins with its first part.
pub proof fn lemma_joined_first(parts: Seq<Seq<char>>, sep: Seq<char>)
    requires
        parts.len() >= 2,
    ensures
        joined(parts, sep) == parts[0] + sep + joined(parts.drop_first(), sep),
    decreases parts.len(),
{
    let rest = parts.drop_first();
    if parts.len() == 2 {
        assert(parts.drop_last()[0] == parts[0]);
        assert(joined(parts.drop_last(), sep) == parts[0]);
        assert(joined(rest, sep) == parts[1]);
    } else {
        lemma_joined_first(parts.drop_last(), sep);
        assert(parts.drop_last().drop_first() =~= rest.drop_last());
        assert(joined(parts, sep) =~= parts[0] + sep + (joined(rest.drop_last(), sep) + sep
            + parts.last()));
    }
}

/// A line followed by a newline and more text reads back as that line and the
/// lines of the rest.
pub proof fn lemma_lines_first(line: Seq<char>, rest: Seq<char>)
    requires
        lacks(line, '\n'),
    ensures
        lines(line + seq!['\n'] + rest) == seq![without_cr(line)] + lines(rest),
{
    let s = line + seq!['\n'] + rest;
    assert forall|j: int| 0 <= j < line.len() implies #[trigger] s[j] != '\n' by {
        assert(s[j] == line[j]);
    }
    assert(s[line.len() as int] == '\n');
    lemma_position(s, '\n', line.len() as int);
    assert(s.take(line.len() as int) =~= line);
    assert(s.skip(line.len() as int + 1) =~= rest);
}

/// Lines that were joined with newlines, and ended with one, read back as they
/// were, but for a carriage return at the end of a line.
pub proof fn lemma_lines_of_joined(parts: Seq<Seq<char>>)
    requires
        parts.len() > 0,
        forall|k: int| 0 <= k < parts.len() ==> lacks(#[trigger] parts[k], '\n'),
    ensures
        lines(joined(parts, seq!['\n']) + seq!['\n']) == parts.map_values(
            |l: Seq<char>| without_cr(l),
        ),
    decreases parts.len(),
{
    let nl = seq!['\n'];
    let f = |l: Seq<char>| without_cr(l);
    assert(lacks(parts[0], '\n'));
    if parts.len() == 1 {
        lemma_lines_first(parts[0], Seq::empty());
        assert(parts[0] + nl + Seq::<char>::empty() =~= joined(parts, nl) + nl);
        assert(seq![without_cr(parts[0])] + lines(Seq::<char>::empty()) =~= parts.map_values(f));
    } else {
        let rest = parts.drop_first();
        assert forall|k: int| 0 <= k < rest.len() implies lacks(#[trigger] rest[k], '\n') by {
            assert(rest[k] == parts[k + 1]);
        }
        lemma_joined_first(parts, nl);
        lemma_lines_of_joined(rest);
        let tail = joined(rest, nl) + nl;
        lemma_lines_first(parts[0], tail);
        assert(parts[0] + nl + tail =~= joined(parts, nl) + nl);
        assert(seq![without_cr(parts[0])] + rest.map_values(f) =~= parts.map_values(f));
    }
}

/// How many characters of white space begin `s`.
fn leading_spaces(s: &Vec<char>) -> (i: usize)
    ensures
        i <= s@.len(),
        trimmed_start(s@) == s@.skip(i as int),
{
    let mut i: usize = 0;
    while i < s.len() && space_char(s[i])
        invariant
            i <= s@.len(),
            forall|j: int| 0 <= j < i ==> is_space(#[trigger] s@[j]),
        decreases s.len() - i,
    {
        i += 1;
    }
    proof {
        lemma_trimmed_start_skip(s@, i as int);
        if i < s@.len() {
            assert(s@.skip(i as int)[0] == s@[i as int]);
        }
    }
    i
}

pub fn trim_start(s: &str) -> (r: String)
    ensures
        r@ == trimmed_start(s@),
{
    let x = chars_of(s);
    let i: usize = leading_spaces(&x);
    assert(x@.subrange(i as int, x@.len() as int) =~= x@.skip(i as int));
    slice_text(&x, i, x.len())
}

pub fn trim(s: &str) -> (r: String)
    ensures
        r@ == trimmed(s@),
{
    let x = chars_of(s);
    let i: usize = leading_spaces(&x);
    let ghost t = x@.skip(i as int);
    let mut k: usize = x.len();
    while k > i && space_char(x[k - 1])
        invariant
            i <= k <= x@.len(),
            t == x@.skip(i as int),
            forall|j: int| k - i <= j < t.len() ==> is_space(#[trigger] t[j]),
        decreases k,
    {
        k -= 1;
        assert(t[k - i] == x@[k as int]);
    }
    proof {
        lemma_trimmed_end_take(t, k - i);
        assert(t.take(k - i) =~= x@.subrange(i as int, k as int));
        if k > i {
            assert(t.take(k - i).last() == x@[k - 1]);
        }
    }
    slice_text(&x, i, k)
}

pub proof fn lemma_position(s: Seq<char>, c: char, i: int)
    requires
        0 <= i <= s.len(),
        forall|j: int| 0 <= j < i ==> #[trigger] s[j] != c,
        i < s.len() ==> s[i] == c,
    ensures
        position(s, c) == i,
    decreases s.len(),
{
    if s.len() > 0 && s[0] != c {
        let t = s.drop_first();
        assert(i > 0);
        assert forall|j: int| 0 <= j < i - 1 implies #[trigger] t[j] != c by {
            assert(t[j] == s[j + 1]);
        }
        lemma_position(t, c, i - 1);
    } else if s.len() > 0 && i > 0 {
        assert(s[0] != c);
    }
}

pub proof fn lemma_position_is(s: Seq<char>, c: char)
    ensures
        0 <= position(s, c) <= s.len(),
        position(s, c) < s.len() ==> s[position(s, c)] == c,
        forall|j: int| 0 <= j < position(s, c) ==> #[trigger] s[j] != c,
    decreases s.len(),
{
    if s.len() > 0 && s[0] != c {
        let t = s.drop_first();
        lemma_position_is(t, c);
        assert forall|j: int| 0 <= j < position(s, c) implies #[trigger] s[j] != c by {
            if j > 0 {
                assert(t[j - 1] == s[j]);
            }
        }
    }
}

/// The first `c` in `s` at or after `from`, or the length of `s`.
pub fn find_from(s: &Vec<char>, c: char, from: usize) -> (r: usize)
    requires
        from <= s@.len(),
    ensures
        from <= r <= s@.len(),
        r - from == position(s@.skip(from as int), c),
{
    let mut i: usize = from;
    while i < s.len() && s[i] != c
        invariant
            from <= i <= s@.len(),
            forall|j: int| from <= j < i ==> #[trigger] s@[j] != c,
        decreases s.len() - i,
    {
        i += 1;
    }
    proof {
        let t = s@.skip(from as int);
        assert forall|j: int| 0 <= j < i - from implies #[trigger] t[j] != c by {
            assert(t[j] == s@[from + j]);
        }
        if i < s@.len() {
            assert(t[i - from] == s@[i as int]);
        }
        lemma_position(t, c, i - from);
    }
    i
}

/// The first `c` in `s`, or the length of `s`.
pub fn find_char(s: &Vec<char>, c: char) -> (r: usize)
    ensures
        r <= s@.len(),
        r == position(s@, c),
{
    assert(s@.skip(0) =~= s@);
    find_from(s, c, 0)
}

/// What stands before the first `c` and what stands after it.
pub fn split_once(s: &str, c: char) -> (r: Option<(String, String)>)
    ensures
        match r {
            Some(p) => {
                let i = position(s@, c);
                &&& i < s@.len()
                &&& p.0@ == s@.take(i)
                &&& p.1@ == s@.skip(i + 1)
            },
            None => position(s@, c) == s@.len(),
        },
{
    let x = chars_of(s);
    let i: usize = find_char(&x, c);
    if i == x.len() {
        return None;
    }
    assert(x@.subrange(0, i as int) =~= x@.take(i as int));
    assert(x@.subrange(i + 1, x@.len() as int) =~= x@.skip(i + 1));
    Some((slice_text(&x, 0, i), slice_text(&x, i + 1, x.len())))
}

/// The pieces of `s` between the occurrences of `c`.
pub fn split(s: &str, c: char) -> (r: Vec<String>)
    ensures
        r.deep_view() == pieces(s@, c),
{
    let x = chars_of(s);
    let mut out: Vec<String> = Vec::new();
    let mut from: usize = 0;
    assert(x@.skip(0) =~= x@);
    assert(out.deep_view() + pieces(x@.skip(0), c) =~= pieces(x@, c));
    loop
        invariant_except_break
            from <= x@.len(),
            out.deep_view() + pieces(x@.skip(from as int), c) == pieces(x@, c),
        ensures
            out.deep_view() == pieces(x@, c),
        decreases x.len() - from,
    {
        let i: usize = find_from(&x, c, from);
        let ghost t = x@.skip(from as int);
        let ghost before = out.deep_view();
        let piece = slice_text(&x, from, i);
        assert(t.take(i - from) =~= x@.subrange(from as int, i as int));
        out.push(piece);
        assert(out.deep_view() =~= before.push(piece@));
        if i == x.len() {
            assert(t.take(i - from) =~= t);
            assert(before + seq![t] =~= out.deep_view());
            break;
        }
        assert(t.skip(i - from + 1) =~= x@.skip(i + 1));
        assert(before + (seq![piece@] + pieces(x@.skip(i + 1), c)) =~= out.deep_view() + pieces(
            x@.skip(i + 1),
            c,
        ));
        from = i + 1;
    }
    out
}

/// The words of `s`.
pub fn split_words(s: &str) -> (r: Vec<String>)
    ensures
        r.deep_view() == words(s@),
{
    let x = chars_of(s);
    let mut out: Vec<String> = Vec::new();
    let mut from: usize = 0;
    assert(x@.skip(0) =~= x@);
    assert(out.deep_view() + words(x@.skip(0)) =~= words(x@));
    loop
        invariant_except_break
            from <= x@.len(),
            out.deep_view() + words(x@.skip(from as int)) == words(x@),
        ensures
            out.deep_view() == words(x@),
        decreases x.len() - from,
    {
        let mut i: usize = from;
        while i < x.len() && space_char(x[i])
            invariant
                from <= i <= x@.len(),
                forall|j: int| from <= j < i ==> is_space(#[trigger] x@[j]),
            decreases x.len() - i,
        {
            i += 1;
        }
        let ghost rest = x@.skip(from as int);
        let ghost t = x@.skip(i as int);
        proof {
            assert forall|j: int| 0 <= j < i - from implies is_space(#[trigger] rest[j]) by {
                assert(rest[j] == x@[from + j]);
            }
            lemma_trimmed_start_skip(rest, i - from);
            assert(rest.skip(i - from) =~= t);
            if i < x@.len() {
                assert(t[0] == x@[i as int]);
            }
            assert(trimmed_start(rest) == t);
        }
        if i == x.len() {
            assert(words(rest) =~= Seq::<Seq<char>>::empty());
            assert(out.deep_view() + words(rest) =~= out.deep_view());
            break;
        }
        let mut k: usize = i;
        while k < x.len() && !space_char(x[k])
            invariant
                i <= k <= x@.len(),
                forall|j: int| i <= j < k ==> !is_space(#[trigger] x@[j]),
            decreases x.len() - k,
        {
            k += 1;
        }
        let ghost before = out.deep_view();
        let word = slice_text(&x, i, k);
        proof {
            assert forall|j: int| 0 <= j < k - i implies !is_space(#[trigger] t[j]) by {
                assert(t[j] == x@[i + j]);
            }
            if k < x@.len() {
                assert(t[k - i] == x@[k as int]);
            }
            lemma_word_len_is(t, k - i);
            assert(t.take(k - i) =~= word@);
            assert(t.skip(k - i) =~= x@.skip(k as int));
        }
        out.push(word);
        assert(out.deep_view() =~= before.push(word@));
        assert(before + (seq![word@] + words(x@.skip(k as int))) =~= out.deep_view() + words(
            x@.skip(k as int),
        ));
        from = k;
    }
    out
}

/// The lines of `s`, without their terminators.
pub fn split_lines(s: &str) -> (r: Vec<String>)
    ensures
        r.deep_view() == lines(s@),
{
    let x = chars_of(s);
    let mut out: Vec<String> = Vec::new();
    let mut from: usize = 0;
    assert(x@.skip(0) =~= x@);
    assert(out.deep_view() + lines(x@.skip(0)) =~= lines(x@));
    while from < x.len()
        invariant
            from <= x@.len(),
            out.deep_view() + lines(x@.skip(from as int)) == lines(x@),
        decreases x.len() - from,
    {
        let i: usize = find_from(&x, '\n', from);
        let ghost t = x@.skip(from as int);
        let ghost before = out.deep_view();
        assert(t.take(i - from) =~= x@.subrange(from as int, i as int));
        if i == x.len() {
            let line = slice_text(&x, from, i);
            out.push(line);
            assert(t.take(i - from) =~= t);
            assert(out.deep_view() =~= before + seq![t]);
            assert(lines(x@.skip(i as int)) =~= Seq::<Seq<char>>::empty());
            assert(out.deep_view() + lines(x@.skip(i as int)) =~= out.deep_view());
            from = i;
        } else {
            let end: usize = if i > from && x[i - 1] == '\r' {
                i - 1
            } else {
                i
            };
            let line = slice_text(&x, from, end);
            proof {
                let whole = t.take(i - from);
                if i > from {
                    assert(whole.last() == x@[i - 1]);
                }
                assert(line@ =~= without_cr(whole));
            }
            out.push(line);
            assert(out.deep_view() =~= before.push(line@));
            assert(t.skip(i - from + 1) =~= x@.skip(i + 1));
            assert(before + (seq![line@] + lines(x@.skip(i + 1))) =~= out.deep_view() + lines(
                x@.skip(i + 1),
            ));
            from = i + 1;
        }
    }
    assert(x@.skip(from as int) =~= Seq::<char>::empty());
    assert(out.deep_view() + lines(x@.skip(from as int)) =~= out.deep_view());
    out
}

pub fn replace_char(s: &str, from: char, to: char) -> (r: String)
    ensures
        r@ == replaced(s@, from, to),
{
    let x = chars_of(s);
    let mut out: Vec<char> = Vec::new();
    let mut i: usize = 0;
    while i < x.len()
        invariant
            i <= x@.len(),
            out@ == replaced(x@, from, to).take(i as int),
        decreases x.len() - i,
    {
        let c = x[i];
        out.push(
            if c == from {
                to
            } else {
                c
            },
        );
        i += 1;
        assert(out@ =~= replaced(x@, from, to).take(i as int));
    }
    assert(out@ =~= replaced(x@, from, to));
    text_of(out.as_slice())
}

/// The parts in order, with `sep` between each two.
pub fn join(parts: &Vec<String>, sep: &str) -> (r: String)
    ensures
        r@ == joined(parts.deep_view(), sep@),
{
    let mut out = String::new();
    let mut i: usize = 0;
    assert(parts.deep_view().take(0) =~= Seq::<Seq<char>>::empty());
    while i < parts.len()
        invariant
            i <= parts@.len(),
            out@ == joined(parts.deep_view().take(i as int), sep@),
        decreases parts.len() - i,
    {
        let ghost before = out@;
        if i > 0 {
            out.append(sep);
        }
        out.append(parts[i].as_str());
        proof {
            let t = parts.deep_view().take(i + 1);
            assert(t.drop_last() =~= parts.deep_view().take(i as int));
            assert(t.last() == parts@[i as int]@);
            if i == 0 {
                assert(out@ =~= t[0]);
            }
        }
        i += 1;
    }
    assert(parts.deep_view().take(i as int) =~= parts.deep_view());
    out
}

/// `a` and then `b`.
pub fn concat(a: &str, b: &str) -> (r: String)
    ensures
        r@ == a@ + b@,
{
    let mut r = a.to_owned();
    r.append(b);
    r
}

/// `a`, `b` and `c` in a row.
pub fn concat3(a: &str, b: &str, c: &str) -> (r: String)
    ensures
        r@ == a@ + b@ + c@,
{
    let mut r = a.to_owned();
    r.append(b);
    r.append(c);
    r
}

/// Where `s` stands in `list`, or the length of `list`.
pub fn index_in(list: &Vec<String>, s: &str) -> (i: usize)
    ensures
        i <= list@.len(),
        i < list@.len() ==> list.deep_view()[i as int] == s@,
        forall|j: int| 0 <= j < i ==> list.deep_view()[j] != s@,
{
    let mut i: usize = 0;
    while i < list.len()
        invariant
            i <= list@.len(),
            forall|j: int| 0 <= j < i ==> list.deep_view()[j] != s@,
        decreases list.len() - i,
    {
        if same_text(list[i].as_str(), s) {
            return i;
        }
        i += 1;
    }
    i
}

/// Whether `s` is one of `list`.
pub fn is_in(list: &Vec<String>, s: &str) -> (r: bool)
    ensures
        r == list.deep_view().contains(s@),
{
    let i: usize = index_in(list, s);
    if i < list.len() {
        assert(list.deep_view()[i as int] == s@);
        true
    } else {
        false
    }
}

/// A copy of a list of strings.
pub fn copy_list(list: &Vec<String>) -> (r: Vec<String>)
    ensures
        r.deep_view() == list.deep_view(),
        r@ == list@,
{
    let mut out: Vec<String> = Vec::new();
    let mut i: usize = 0;
    while i < list.len()
        invariant
            i <= list@.len(),
            out@ == list@.take(i as int),
        decreases list.len() - i,
    {
        out.push(list[i].clone());
        i += 1;
        assert(out@ =~= list@.take(i as int));
    }
    assert(out@ =~= list@);
    out
}

/// A number in decimal has digits only, at least one.
pub proof fn lemma_decimal_digits(n: nat)
    ensures
        decimal(n).len() > 0,
        all_digits(decimal(n)),
    decreases n,
{
    if n >= 10 {
        lemma_decimal_digits(n / 10);
    }
}

pub proof fn lemma_decimal_value_bound(s: Seq<char>, k: int)
    requires
        0 <= k <= s.len(),
    ensures
        decimal_value(s.take(k)) <= decimal_value(s),
    decreases s.len() - k,
{
    if k < s.len() {
        lemma_decimal_value_bound(s, k + 1);
        assert(s.take(k + 1).drop_last() =~= s.take(k));
    } else {
        assert(s.take(k) =~= s);
    }
}

/// Reads an unsigned number that fits in 64 bits.
pub fn parse_u64(s: &str) -> (r: Option<u64>)
    ensures
        match r {
            Some(v) => number_in(s@) == Some(v as nat),
            None => match number_in(s@) {
                Some(n) => n > u64::MAX,
                None => true,
            },
        },
{
    let x = chars_of(s);
    let start: usize = if x.len() > 0 && x[0] == '+' {
        1
    } else {
        0
    };
    let ghost digits = x@.skip(start as int);
    assert(digits =~= if s@.len() > 0 && s@[0] == '+' {
        s@.drop_first()
    } else {
        s@
    });
    if start == x.len() {
        return None;
    }
    let mut n: u64 = 0;
    let mut i: usize = start;
    assert(digits.take(0) =~= Seq::<char>::empty());
    while i < x.len()
        invariant
            start <= i <= x@.len(),
            x@ == s@,
            digits == x@.skip(start as int),
            digits.len() > 0,
            number_in(s@) == (if all_digits(digits) {
                Some(decimal_value(digits))
            } else {
                None
            }),
            forall|j: int| 0 <= j < i - start ==> is_digit(#[trigger] digits[j]),
            n == decimal_value(digits.take(i - start)),
        decreases x.len() - i,
    {
        let c = x[i];
        assert(digits[i - start] == c);
        if !('0' <= c && c <= '9') {
            assert(!all_digits(digits));
            return None;
        }
        let d: u64 = (c as u64) - ('0' as u64);
        proof {
            let k = i - start;
            assert(digits.take(k + 1).drop_last() =~= digits.take(k));
            assert(digits.take(k + 1).last() == c);
            lemma_decimal_value_bound(digits, k + 1);
        }
        if n > (u64::MAX - d) / 10 {
            assert(n * 10 + d > u64::MAX);
            return None;
        }
        n = n * 10 + d;
        i += 1;
    }
    assert(digits.take(i - start) =~= digits);
    Some(n)
}

/// `n` in decimal.
pub fn number_text(n: u64) -> (r: String)
    ensures
        r@ == decimal(n as nat),
{
    text_of(number_chars(n).as_slice())
}

fn number_chars(n: u64) -> (r: Vec<char>)
    ensures
        r@ == decimal(n as nat),
    decreases n,
{
    let digit = (('0' as u8) + ((n % 10) as u8)) as char;
    assert(digit == digit_char((n % 10) as nat));
    let mut out: Vec<char> = if n < 10 {
        Vec::new()
    } else {
        number_chars(n / 10)
    };
    out.push(digit);
    if n < 10 {
        assert(out@ =~= seq![digit]);
    }
    out
}

pub proof fn lemma_text_less_from(a: Seq<char>, b: Seq<char>, i: int)
    requires
        0 <= i <= a.len(),
        i <= b.len(),
        forall|j: int| 0 <= j < i ==> #[trigger] a[j] == b[j],
    ensures
        text_less(a, b) == text_less(a.skip(i), b.skip(i)),
    decreases i,
{
    if i > 0 {
        let x = a.drop_first();
        let y = b.drop_first();
        assert(a[0] == b[0]);
        assert forall|j: int| 0 <= j < i - 1 implies #[trigger] x[j] == y[j] by {
            assert(a[j + 1] == b[j + 1]);
        }
        lemma_text_less_from(x, y, i - 1);
        assert(x.skip(i - 1) =~= a.skip(i));
        assert(y.skip(i - 1) =~= b.skip(i));
    } else {
        assert(a.skip(0) =~= a);
        assert(b.skip(0) =~= b);
    }
}

/// Whether `a` comes before `b` in the order of strings.
pub fn less(a: &str, b: &str) -> (r: bool)
    ensures
        r == text_less(a@, b@),
{
    let x = chars_of(a);
    let y = chars_of(b);
    let mut i: usize = 0;
    while i < x.len() && i < y.len() && x[i] == y[i]
        invariant
            i <= x@.len(),
            i <= y@.len(),
            forall|j: int| 0 <= j < i ==> #[trigger] x@[j] == y@[j],
        decreases x.len() - i,
    {
        i += 1;
    }
    proof {
        lemma_text_less_from(x@, y@, i as int);
    }
    if i == x.len() {
        i < y.len()
    } else if i == y.len() {
        false
    } else {
        x[i] < y[i]
    }
}

pub proof fn lemma_text_less_irreflexive(a: Seq<char>)
    ensures
        !text_less(a, a),
    decreases a.len(),
{
    if a.len() > 0 {
        lemma_text_less_irreflexive(a.drop_first());
    }
}

pub proof fn lemma_text_less_transitive(a: Seq<char>, b: Seq<char>, c: Seq<char>)
    requires
        text_less(a, b),
        text_less(b, c),
    ensures
        text_less(a, c),
    decreases a.len(),
{
    if a.len() > 0 && b.len() > 0 && c.len() > 0 && a[0] == b[0] && b[0] == c[0] {
        lemma_text_less_transitive(a.drop_first(), b.drop_first(), c.drop_first());
    }
}

pub proof fn lemma_text_less_total(a: Seq<char>, b: Seq<char>)
    ensures
        text_less(a, b) || a == b || text_less(b, a),
    decreases a.len(),
{
    if a.len() > 0 && b.len() > 0 && a[0] == b[0] {
        lemma_text_less_total(a.drop_first(), b.drop_first());
        if a.drop_first() == b.drop_first() {
            assert(a =~= seq![a[0]] + a.drop_first());
            assert(b =~= seq![b[0]] + b.drop_first());
        }
    } else if a.len() == 0 && b.len() == 0 {
        assert(a =~= b);
    }
}

/// Whether some of these texts stands in `s`.
pub open spec fn holds_any(s: Seq<char>, needles: Seq<Seq<char>>) -> bool {
    exists|k: int| 0 <= k < needles.len() && holds(s, #[trigger] needles[k])
}

/// Whether some of these texts stands in `s`.
pub fn has_any(s: &str, needles: &Vec<&str>) -> (r: bool)
    ensures
        r == holds_any(s@, needles.deep_view()),
{
    let ghost nv = needles.deep_view();
    let mut i: usize = 0;
    while i < needles.len()
        invariant
            i <= needles@.len(),
            nv == needles.deep_view(),
            forall|k: int| 0 <= k < i ==> !holds(s@, #[trigger] nv[k]),
        decreases needles.len() - i,
    {
        if has_substring(s, needles[i]) {
            assert(holds(s@, nv[i as int]));
            return true;
        }
        i += 1;
    }
    false
}

/// The condition to hold some of these texts.
pub open spec fn line_with(needles: Seq<Seq<char>>) -> spec_fn(Seq<char>) -> bool {
    |l: Seq<char>| holds_any(l, needles)
}

/// The lines of `s` that hold some of these texts, in order.
pub fn lines_with_any(s: &str, needles: &Vec<&str>) -> (r: Vec<String>)
    ensures
        r.deep_view() == lines(s@).filter(line_with(needles.deep_view())),
{
    let all = split_lines(s);
    let ghost av = all.deep_view();
    let ghost pred = line_with(needles.deep_view());
    let mut out: Vec<String> = Vec::new();
    let mut i: usize = 0;
    reveal(Seq::filter);
    assert(av.take(0) =~= Seq::<Seq<char>>::empty());
    assert(out.deep_view() =~= Seq::<Seq<char>>::empty());
    while i < all.len()
        invariant
            i <= all@.len(),
            av == all.deep_view(),
            pred == line_with(needles.deep_view()),
            out.deep_view() == av.take(i as int).filter(pred),
        decreases all.len() - i,
    {
        reveal(Seq::filter);
        assert(av.take(i + 1).drop_last() =~= av.take(i as int));
        assert(av.take(i + 1).last() == all@[i as int]@);
        if has_any(all[i].as_str(), needles) {
            let ghost before = out.deep_view();
            out.push(all[i].clone());
            assert(out.deep_view() =~= before.push(av[i as int]));
        }
        i += 1;
    }
    assert(av.take(i as int) =~= av);
    out
}

/// The first `n` entries of a list, or all where there are fewer.
pub open spec fn first_of<A>(list: Seq<A>, n: int) -> Seq<A> {
    if n <= list.len() {
        list.take(n)
    } else {
        list
    }
}

/// The first `n` texts of a list, or all where there are fewer.
pub fn first_texts(list: &Vec<String>, n: usize) -> (r: Vec<String>)
    ensures
        r.deep_view() == first_of(list.deep_view(), n as int),
{
    let ghost lv = list.deep_view();
    let mut out: Vec<String> = Vec::new();
    let mut i: usize = 0;
    while i < list.len() && i < n
        invariant
            i <= list@.len(),
            i <= n,
            lv == list.deep_view(),
            out.deep_view() == lv.take(i as int),
        decreases list.len() - i,
    {
        let ghost before = out.deep_view();
        out.push(list[i].clone());
        assert(out.deep_view() =~= before.push(lv[i as int]));
        i += 1;
        assert(out.deep_view() =~= lv.take(i as int));
    }
    assert(out.deep_view() =~= first_of(lv, n as int));
    out
}

/// `s` followed by as many spaces as make it `width` characters long.
pub open spec fn padded(s: Seq<char>, width: nat) -> Seq<char> {
    if s.len() < width {
        s + Seq::new((width - s.len()) as nat, |i: int| ' ')
    } else {
        s
    }
}

/// `s` followed by as many spaces as make it `width` characters long.
pub fn pad(s: &str, width: usize) -> (r: String)
    ensures
        r@ == padded(s@, width as nat),
{
    let mut x = chars_of(s);
    let ghost n = s@.len();
    while x.len() < width
        invariant
            s@.len() == n,
            n <= x@.len(),
            x@.len() <= width || x@.len() == n,
            x@ == s@ + Seq::new((x@.len() - n) as nat, |i: int| ' '),
        decreases width - x.len(),
    {
        let ghost before = x@;
        x.push(' ');
        assert(x@ =~= s@ + Seq::new((x@.len() - n) as nat, |i: int| ' '));
    }
    assert(x@ =~= padded(s@, width as nat));
    text_of(x.as_slice())
}

// ---------------------------------------------------------------------------
// What cutting up and putting together have to do with each other
// ---------------------------------------------------------------------------

/// A number is written with digits only and without a leading zero, and is read
/// back as what it was.
pub proof fn lemma_decimal_is_read_back(n: nat)
    ensures
        decimal(n).len() > 0,
        all_digits(decimal(n)),
        decimal_value(decimal(n)) == n,
        number_in(decimal(n)) == Some(n),
        number_in(seq!['+'] + decimal(n)) == Some(n),
        n > 0 ==> decimal(n)[0] != '0',
    decreases n,
{
    let s = decimal(n);
    if n >= 10 {
        lemma_decimal_is_read_back(n / 10);
        assert(s.drop_last() =~= decimal(n / 10));
        assert(decimal(n / 10)[0] == s[0]);
        assert forall|i: int| 0 <= i < s.len() implies is_digit(#[trigger] s[i]) by {
            if i < s.len() - 1 {
                assert(is_digit(decimal(n / 10)[i]));
            }
        }
    } else {
        assert(s.drop_last() =~= Seq::<char>::empty());
        assert(decimal_value(s.drop_last()) == 0);
        assert(s.last() == digit_char(n));
        assert(digit_value(digit_char(n)) == n);
    }
    assert(decimal_value(s) == n);
    let t = seq!['+'] + s;
    assert(t.drop_first() =~= s);
    assert(is_digit(s[0]));
}

/// What is no row of digits, with a plus sign at most before it, is no number.
pub proof fn lemma_no_number(s: Seq<char>, i: int)
    requires
        s.len() == 0 || s == seq!['+'] || (0 <= i < s.len() && !is_digit(s[i]) && (i > 0 || s[i]
            != '+')),
    ensures
        number_in(s) is None,
{
    if s.len() > 0 && s[0] == '+' {
        let t = s.drop_first();
        if 0 < i < s.len() {
            assert(t[i - 1] == s[i]);
        }
    }
}

/// The pieces put together again give the text, and none of them holds the
/// character at which it was cut.
pub proof fn lemma_pieces_join(s: Seq<char>, c: char)
    ensures
        pieces(s, c).len() > 0,
        joined(pieces(s, c), seq![c]) == s,
        forall|k: int| 0 <= k < pieces(s, c).len() ==> lacks(#[trigger] pieces(s, c)[k], c),
    decreases s.len(),
{
    lemma_position_is(s, c);
    let i = position(s, c);
    let all = pieces(s, c);
    if 0 <= i < s.len() {
        let first = s.take(i);
        let rest = s.skip(i + 1);
        lemma_pieces_join(rest, c);
        lemma_joined_first(all, seq![c]);
        assert(all.drop_first() =~= pieces(rest, c));
        assert(first + seq![c] + rest =~= s);
        assert forall|k: int| 0 <= k < all.len() implies lacks(#[trigger] all[k], c) by {
            if k > 0 {
                assert(all[k] == pieces(rest, c)[k - 1]);
            }
        }
    } else {
        assert(all =~= seq![s]);
    }
}

/// Words hold no white space and are not empty.
pub proof fn lemma_words_are_words(s: Seq<char>)
    ensures
        forall|k: int, i: int|
            0 <= k < words(s).len() && 0 <= i < words(s)[k].len() ==> !is_space(
                #[trigger] words(s)[k][i],
            ),
        forall|k: int| 0 <= k < words(s).len() ==> (#[trigger] words(s)[k]).len() > 0,
    decreases s.len(),
{
    let t = trimmed_start(s);
    lemma_trimmed_start_is(s);
    if t.len() > 0 {
        lemma_word_len(t);
        let w = t.take(word_len(t));
        let rest = t.skip(word_len(t));
        lemma_words_are_words(rest);
        let all = words(s);
        assert(all == seq![w] + words(rest));
        assert forall|k: int, i: int|
            0 <= k < all.len() && 0 <= i < all[k].len() implies !is_space(#[trigger] all[k][i]) by {
            if k > 0 {
                assert(all[k] == words(rest)[k - 1]);
                assert(!is_space(words(rest)[k - 1][i]));
            } else {
                assert(all[0][i] == t[i]);
            }
        }
        assert forall|k: int| 0 <= k < all.len() implies (#[trigger] all[k]).len() > 0 by {
            if k > 0 {
                assert(all[k] == words(rest)[k - 1]);
            }
        }
    }
}

/// A word with white space behind it is the first word of a text, and the other
/// words are those of what follows.
pub proof fn lemma_words_first(w: Seq<char>, space: char, rest: Seq<char>)
    requires
        w.len() > 0,
        forall|i: int| 0 <= i < w.len() ==> !is_space(#[trigger] w[i]),
        is_space(space),
    ensures
        words(w + seq![space] + rest) == seq![w] + words(rest),
        words(w) == seq![w],
        words(seq![space] + rest) == words(rest),
{
    let s = w + seq![space] + rest;
    let n = w.len() as int;
    assert(!is_space(s[0])) by {
        assert(s[0] == w[0]);
        assert(!is_space(w[0]));
    }
    lemma_trimmed_start_skip(s, 0);
    assert(s.skip(0) =~= s);
    assert forall|j: int| 0 <= j < n implies !is_space(#[trigger] s[j]) by {
        assert(s[j] == w[j]);
    }
    lemma_word_len_is(s, n);
    assert(s.take(n) =~= w);
    let t = seq![space] + rest;
    assert(s.skip(n) =~= t);
    assert(t.drop_first() =~= rest);
    assert(trimmed_start(t) == trimmed_start(rest));
    assert(words(t) == words(rest));
    assert(w.skip(0) =~= w);
    lemma_trimmed_start_skip(w, 0);
    lemma_word_len_is(w, n);
    assert(w.take(n) =~= w);
    assert(w.skip(n) =~= Seq::<char>::empty());
    assert(trimmed_start(w.skip(n)) =~= Seq::<char>::empty());
    assert(words(w.skip(n)) =~= Seq::<Seq<char>>::empty());
    assert(words(w) =~= seq![w]);
}

/// Of two texts that begin alike, that with the lower next character comes
/// first; and a text comes before any that it begins.
pub proof fn lemma_text_order(common: Seq<char>, a: Seq<char>, b: Seq<char>)
    requires
        b.len() > 0,
        a.len() == 0 || a[0] < b[0],
    ensures
        text_less(common + a, common + b),
        !text_less(common + b, common + a),
{
    let x = common + a;
    let y = common + b;
    let n = common.len() as int;
    assert forall|j: int| 0 <= j < n implies #[trigger] x[j] == y[j] by {}
    lemma_text_less_from(x, y, n);
    lemma_text_less_from(y, x, n);
    assert(x.skip(n) =~= a);
    assert(y.skip(n) =~= b);
}

/// What stands at the end of a text is what it ends in; what stands anywhere in
/// it, it holds; and replacing touches nothing but the one character.
pub proof fn lemma_parts_of_a_text(a: Seq<char>, p: Seq<char>, b: Seq<char>, from: char, to: char)
    ensures
        ends_in(a + p, p),
        holds(a + p + b, p),
        holds_at(p + b, p, 0),
        replaced(a, from, to).len() == a.len(),
        forall|i: int|
            0 <= i < a.len() ==> #[trigger] replaced(a, from, to)[i] == (if a[i] == from {
                to
            } else {
                a[i]
            }),
        replaced(a + b, from, to) == replaced(a, from, to) + replaced(b, from, to),
{
    assert((a + p).subrange(a.len() as int, (a + p).len() as int) =~= p);
    let s = a + p + b;
    assert(s.subrange(a.len() as int, a.len() as int + p.len()) =~= p);
    assert(holds_at(s, p, a.len() as int));
    assert((p + b).subrange(0, p.len() as int) =~= p);
    assert(replaced(a + b, from, to) =~= replaced(a, from, to) + replaced(b, from, to));
}

/// What a text ends in stands at its end.
pub proof fn lemma_ends_in_means(s: Seq<char>, p: Seq<char>) -> (a: Seq<char>)
    requires
        ends_in(s, p),
    ensures
        s == a + p,
{
    let a = s.take(s.len() - p.len());
    assert(s =~= a + s.subrange(s.len() - p.len(), s.len() as int));
    a
}

/// The pieces of two texts with the character between them are those of the
/// first and then those of the second.
pub proof fn lemma_pieces_of_two(a: Seq<char>, b: Seq<char>, c: char)
    ensures
        pieces(a + seq![c] + b, c) == pieces(a, c) + pieces(b, c),
    decreases a.len(),
{
    let s = a + seq![c] + b;
    lemma_position_is(a, c);
    let i = position(a, c);
    if i < a.len() {
        assert forall|j: int| 0 <= j < i implies #[trigger] s[j] != c by {
            assert(s[j] == a[j]);
        }
        assert(s[i] == a[i]);
        lemma_position(s, c, i);
        let t = a.skip(i + 1);
        lemma_pieces_of_two(t, b, c);
        assert(s.skip(i + 1) =~= t + seq![c] + b);
        assert(s.take(i) =~= a.take(i));
        assert(pieces(s, c) =~= pieces(a, c) + pieces(b, c));
    } else {
        assert forall|j: int| 0 <= j < a.len() implies #[trigger] s[j] != c by {
            assert(s[j] == a[j]);
        }
        assert(s[a.len() as int] == c);
        lemma_position(s, c, a.len() as int);
        assert(s.take(a.len() as int) =~= a);
        assert(s.skip(a.len() as int + 1) =~= b);
        assert(pieces(s, c) =~= pieces(a, c) + pieces(b, c));
    }
}

/// A text without the character is one piece.
pub proof fn lemma_one_piece(s: Seq<char>, c: char)
    requires
        lacks(s, c),
    ensures
        pieces(s, c) == seq![s],
        position(s, c) == s.len(),
{
    lemma_position(s, c, s.len() as int);
    assert(pieces(s, c) =~= seq![s]);
}

/// A padded text begins with the text, has at least the width, and nothing but
/// spaces behind it.
pub proof fn lemma_padding_is_spaces(s: Seq<char>, width: nat)
    ensures
        padded(s, width).len() == (if s.len() < width {
            width
        } else {
            s.len()
        }),
        padded(s, width).take(s.len() as int) == s,
        forall|j: int| s.len() <= j < padded(s, width).len() ==> #[trigger] padded(s, width)[j]
            == ' ',
{
    assert(padded(s, width).take(s.len() as int) =~= s);
}

/// Folding makes the capitals of ASCII small and leaves every other character as
/// it is, so that two texts fold alike exactly where they differ in the case of
/// ASCII letters at most.
pub proof fn lemma_folding(a: Seq<char>, b: Seq<char>)
    ensures
        ascii_fold(a) == ascii_fold(b) <==> a.len() == b.len() && forall|i: int|
            0 <= i < a.len() ==> {
                ||| #[trigger] a[i] == b[i]
                ||| 'A' <= a[i] <= 'Z' && b[i] as u32 == a[i] as u32 + 32
                ||| 'A' <= b[i] <= 'Z' && a[i] as u32 == b[i] as u32 + 32
            },
{
    let x = ascii_fold(a);
    let y = ascii_fold(b);
    assert(x.len() == a.len() && y.len() == b.len());
    if x == y {
        assert forall|i: int| 0 <= i < a.len() implies {
            ||| #[trigger] a[i] == b[i]
            ||| 'A' <= a[i] <= 'Z' && b[i] as u32 == a[i] as u32 + 32
            ||| 'A' <= b[i] <= 'Z' && a[i] as u32 == b[i] as u32 + 32
        } by {
            assert(x[i] == ascii_lower(a[i]));
            assert(y[i] == ascii_lower(b[i]));
        }
    }
    if a.len() == b.len() && forall|i: int|
        0 <= i < a.len() ==> {
            ||| #[trigger] a[i] == b[i]
            ||| 'A' <= a[i] <= 'Z' && b[i] as u32 == a[i] as u32 + 32
            ||| 'A' <= b[i] <= 'Z' && a[i] as u32 == b[i] as u32 + 32
        } {
        assert forall|i: int| 0 <= i < a.len() implies #[trigger] x[i] == y[i] by {
            assert(x[i] == ascii_lower(a[i]));
            assert(y[i] == ascii_lower(b[i]));
            assert({
                ||| a[i] == b[i]
                ||| 'A' <= a[i] <= 'Z' && b[i] as u32 == a[i] as u32 + 32
                ||| 'A' <= b[i] <= 'Z' && a[i] as u32 == b[i] as u32 + 32
            });
        }
        assert(x =~= y);
    }
}

} // verus!
