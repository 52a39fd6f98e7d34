//! Text helpers: characters in and out of strings, searching, trimming,
//! splitting and decimal numbers.

use vstd::prelude::*;
use vstd::utf8::*;

verus! {

/// `String::push` appends one character.
pub assume_specification[ String::push ](s: &mut String, c: char)
    ensures
        final(s)@ == old(s)@.push(c),
;

/// A text, where there is one, by its characters.
pub open spec fn maybe(s: Option<String>) -> Option<Seq<char>> {
    match s {
        None => None,
        Some(t) => Some(t@),
    }
}

/// The characters of each string in a list.
pub open spec fn texts(v: Seq<String>) -> Seq<Seq<char>> {
    v.map_values(|s: String| s@)
}

/// `texts` commutes with `push`.
pub broadcast proof fn lemma_texts_push(v: Seq<String>, s: String)
    ensures
        #[trigger] texts(v.push(s)) == texts(v).push(s@),
{
    assert(texts(v.push(s)) =~= texts(v).push(s@));
}

/// The characters of `s`.
pub fn chars_of(s: &str) -> (r: Vec<char>)
    ensures
        r@ == s@,
{
    let mut out: Vec<char> = Vec::new();
    for c in it: s.chars()
        invariant
            out@ == it.seq().take(it.index() as int),
            it.seq() == s@,
    {
        out.push(c);
    }
    out
}

/// The string made of the characters `cs`.
pub fn string_of(cs: &[char]) -> (r: String)
    ensures
        r@ == cs@,
{
    let mut out = String::new();
    let mut i: usize = 0;
    while i < cs.len()
        invariant
            i <= cs@.len(),
            out@ == cs@.take(i as int),
        decreases cs@.len() - i,
    {
        out.push(cs[i]);
        i += 1;
    }
    out
}

/// Whether two texts hold the same characters.
pub(crate) fn same(a: &str, b: &str) -> (r: bool)
    ensures
        r == (a@ == b@),
{
    a.to_owned() == b.to_owned()
}

/// The part of `s` between two positions.
pub fn slice_text(s: &[char], from: usize, to: usize) -> (r: String)
    requires
        from <= to <= s@.len(),
    ensures
        r@ == s@.subrange(from as int, to as int),
{
    string_of(vstd::slice::slice_subrange(s, from, to))
}

// ---- bytes and text ----

/// What `String::from_utf8_lossy` makes of bytes that are not UTF-8.
pub uninterp spec fn utf8_replaced(bytes: Seq<u8>) -> Seq<char>;

/// The text that `bytes` hold: the characters they encode, or, where they are
/// not UTF-8, the text with the ill-formed parts replaced.
pub open spec fn text_of(bytes: Seq<u8>) -> Seq<char> {
    if valid_utf8(bytes) {
        decode_utf8(bytes)
    } else {
        utf8_replaced(bytes)
    }
}

/// The character that stands for what is not UTF-8.
pub const REPLACEMENT: char = '\u{fffd}';

/// `String::from_utf8_lossy`: valid UTF-8 comes back as the characters it
/// encodes. What other bytes become depends on the bytes alone and is named,
/// not described, but for this: something in it was replaced, so it holds
/// U+FFFD.
#[verifier::external_body]
pub(crate) fn lossy(bytes: &[u8]) -> (r: String)
    ensures
        r@ == (if valid_utf8(bytes@) {
            decode_utf8(bytes@)
        } else {
            utf8_replaced(bytes@)
        }),
        !valid_utf8(bytes@) ==> r@.contains(REPLACEMENT),
{
    String::from_utf8_lossy(bytes).into_owned()
}

/// `str::from_utf8`: succeeds exactly on valid UTF-8.
#[verifier::external_body]
pub(crate) fn is_utf8(bytes: &[u8]) -> (r: bool)
    ensures
        r == valid_utf8(bytes@),
{
    std::str::from_utf8(bytes).is_ok()
}

/// How `{:?}` prints a text.
pub uninterp spec fn debug_quoted(s: Seq<char>) -> Seq<char>;

/// `{:?}` on a string: quoted and escaped. The escaping is named, not
/// described.
#[verifier::external_body]
pub(crate) fn quoted(s: &str) -> (r: String)
    ensures
        r@ == debug_quoted(s@),
{
    format!("{s:?}")
}

/// A text that was read from bytes says which bytes they were, as far as it
/// can: where they were not UTF-8, it holds U+FFFD.
pub open spec fn read_from(t: Seq<char>, bytes: Seq<u8>) -> bool {
    t == text_of(bytes) && (!valid_utf8(bytes) ==> t.contains(REPLACEMENT))
}

/// A text without U+FFFD was read from its own encoding and from nothing
/// else.
pub proof fn lemma_read_exactly(t: Seq<char>, bytes: Seq<u8>, s: Seq<char>)
    requires
        read_from(t, bytes),
        !s.contains(REPLACEMENT),
    ensures
        t == s <==> bytes == encode_utf8(s),
{
    if t == s {
        vstd::utf8::decode_utf8_encode_utf8(bytes);
    }
    lemma_text_of_utf8(s);
}

/// Text survives being written as UTF-8 and read back.
pub proof fn lemma_text_of_utf8(s: Seq<char>)
    ensures
        text_of(encode_utf8(s)) == s,
{
    vstd::utf8::encode_utf8_valid_utf8(s);
    vstd::utf8::encode_utf8_decode_utf8(s);
}

// ---- searching ----

/// `needle` stands in `s` at position `i`.
pub open spec fn stands_at<T>(s: Seq<T>, i: int, needle: Seq<T>) -> bool {
    0 <= i && i + needle.len() <= s.len() && s.subrange(i, i + needle.len()) == needle
}

/// `s` begins with `prefix`.
pub open spec fn starts_with<T>(s: Seq<T>, prefix: Seq<T>) -> bool {
    stands_at(s, 0, prefix)
}

/// `needle` stands somewhere in `s`.
pub open spec fn contains<T>(s: Seq<T>, needle: Seq<T>) -> bool {
    exists|i: int| stands_at(s, i, needle)
}

/// Whether `needle` stands in `s` at `i`.
pub fn chars_stand_at(s: &[char], i: usize, needle: &[char]) -> (r: bool)
    requires
        i <= s@.len(),
    ensures
        r == stands_at(s@, i as int, needle@),
{
    if needle.len() > s.len() - i {
        return false;
    }
    let n: usize = s.len();
    let mut k: usize = 0;
    while k < needle.len()
        invariant
            k <= needle@.len(),
            i + needle@.len() <= s@.len(),
            n == s@.len(),
            forall|j: int| 0 <= j < k ==> s@[i + j] == needle@[j],
        decreases needle@.len() - k,
    {
        if s[i + k] != needle[k] {
            assert(s@.subrange(i as int, i + needle@.len())[k as int] == s@[i + k]);
            return false;
        }
        k += 1;
    }
    assert(s@.subrange(i as int, i + needle@.len()) =~= needle@);
    true
}

/// Whether `needle` stands in `s` at `i`, on bytes.
pub fn bytes_stand_at(s: &[u8], i: usize, needle: &[u8]) -> (r: bool)
    requires
        i <= s@.len(),
    ensures
        r == stands_at(s@, i as int, needle@),
{
    if needle.len() > s.len() - i {
        return false;
    }
    let n: usize = s.len();
    let mut k: usize = 0;
    while k < needle.len()
        invariant
            k <= needle@.len(),
            i + needle@.len() <= s@.len(),
            n == s@.len(),
            forall|j: int| 0 <= j < k ==> s@[i + j] == needle@[j],
        decreases needle@.len() - k,
    {
        if s[i + k] != needle[k] {
            assert(s@.subrange(i as int, i + needle@.len())[k as int] == s@[i + k]);
            return false;
        }
        k += 1;
    }
    assert(s@.subrange(i as int, i + needle@.len()) =~= needle@);
    true
}

/// Whether the text `s` begins with `prefix`.
pub fn text_starts_with(s: &str, prefix: &str) -> (r: bool)
    ensures
        r == starts_with(s@, prefix@),
{
    let cs = chars_of(s);
    let ps = chars_of(prefix);
    chars_stand_at(cs.as_slice(), 0, ps.as_slice())
}

/// Whether `needle` occurs in the text `s`.
pub fn text_contains(s: &str, needle: &str) -> (r: bool)
    ensures
        r == contains(s@, needle@),
{
    let cs = chars_of(s);
    let ns = chars_of(needle);
    if ns.len() > cs.len() {
        return false;
    }
    let last: usize = cs.len() - ns.len();
    let mut i: usize = 0;
    while i < last
        invariant
            i <= last,
            last == cs@.len() - ns@.len(),
            cs@ == s@,
            ns@ == needle@,
            forall|j: int| 0 <= j < i ==> !stands_at(s@, j, needle@),
        decreases last - i,
    {
        if chars_stand_at(cs.as_slice(), i, ns.as_slice()) {
            return true;
        }
        i += 1;
    }
    chars_stand_at(cs.as_slice(), last, ns.as_slice())
}

/// Whether `needle` occurs in the bytes `s`.
pub fn bytes_contain(s: &[u8], needle: &[u8]) -> (r: bool)
    ensures
        r == contains(s@, needle@),
{
    if needle.len() > s.len() {
        return false;
    }
    let last: usize = s.len() - needle.len();
    let mut i: usize = 0;
    while i < last
        invariant
            i <= last,
            last == s@.len() - needle@.len(),
            forall|j: int| 0 <= j < i ==> !stands_at(s@, j, needle@),
        decreases last - i,
    {
        if bytes_stand_at(s, i, needle) {
            return true;
        }
        i += 1;
    }
    bytes_stand_at(s, last, needle)
}

// ---- decimal numbers ----

/// The decimal digit `d`.
pub open spec fn digit(d: int) -> char {
    (d + 48) as char
}

/// `n` in decimal, without leading zeros.
pub open spec fn decimal(n: nat) -> Seq<char>
    decreases n,
{
    if n < 10 {
        seq![digit(n as int)]
    } else {
        decimal(n / 10).push(digit((n % 10) as int))
    }
}

/// `n` in decimal, with a minus sign when it is negative.
pub open spec fn signed_decimal(n: int) -> Seq<char> {
    if n < 0 {
        seq!['-'] + decimal((-n) as nat)
    } else {
        decimal(n as nat)
    }
}

/// Appends `n` in decimal.
pub fn push_decimal(out: &mut String, n: u64)
    ensures
        final(out)@ == old(out)@ + decimal(n as nat),
    decreases n,
{
    if n >= 10 {
        push_decimal(out, n / 10);
    }
    let d: u8 = (n % 10) as u8;
    let c: char = (d + 48u8) as char;
    out.push(c);
    assert(out@ =~= old(out)@ + decimal(n as nat));
}

/// `n` in decimal.
pub fn decimal_text(n: u64) -> (r: String)
    ensures
        r@ == decimal(n as nat),
{
    let mut out = String::new();
    push_decimal(&mut out, n);
    assert(out@ =~= decimal(n as nat));
    out
}

/// `n` in decimal, signed.
pub fn signed_text(n: i32) -> (r: String)
    ensures
        r@ == signed_decimal(n as int),
{
    let mut out = String::new();
    if n < 0 {
        out.push('-');
        push_decimal(&mut out, (-(n as i64)) as u64);
        assert(out@ =~= signed_decimal(n as int));
    } else {
        push_decimal(&mut out, n as u64);
        assert(out@ =~= signed_decimal(n as int));
    }
    out
}

/// `c` is a decimal digit.
pub open spec fn is_digit(c: char) -> bool {
    '0' <= c <= '9'
}

/// Every character is a decimal digit.
pub open spec fn all_digits(s: Seq<char>) -> bool {
    forall|i: int| 0 <= i < s.len() ==> is_digit(#[trigger] s[i])
}

/// The number that decimal digits spell.
pub open spec fn digits_value(s: Seq<char>) -> nat
    decreases s.len(),
{
    if s.len() == 0 {
        0
    } else {
        (digits_value(s.drop_last()) * 10 + (s.last() as int - '0' as int)) as nat
    }
}

/// The number that a text spells in decimal digits, where it fits.
pub open spec fn parsed_u32(s: Seq<char>) -> Option<u32> {
    if s.len() > 0 && all_digits(s) && digits_value(s) <= u32::MAX {
        Some(digits_value(s) as u32)
    } else {
        None
    }
}

/// More digits never make a smaller number.
proof fn lemma_digits_grow(s: Seq<char>, n: int)
    requires
        all_digits(s),
        0 <= n <= s.len(),
    ensures
        digits_value(s.take(n)) <= digits_value(s),
    decreases s.len(),
{
    if n == s.len() {
        assert(s.take(n) =~= s);
    } else {
        assert forall|i: int| 0 <= i < s.drop_last().len() implies is_digit(
            #[trigger] s.drop_last()[i],
        ) by {
            assert(s.drop_last()[i] == s[i]);
        }
        lemma_digits_grow(s.drop_last(), n);
        assert(s.drop_last().take(n) =~= s.take(n));
        assert(is_digit(s[s.len() - 1]));
    }
}

/// The number that a text spells in decimal digits, where it fits.
pub fn parse_u32(s: &[char]) -> (r: Option<u32>)
    ensures
        r == parsed_u32(s@),
{
    let n: usize = s.len();
    if n == 0 {
        return None;
    }
    let mut i: usize = 0;
    while i < n
        invariant
            i <= n == s@.len(),
            forall|j: int| 0 <= j < i ==> is_digit(#[trigger] s@[j]),
        decreases n - i,
    {
        if !('0' <= s[i] && s[i] <= '9') {
            assert(!is_digit(s@[i as int]));
            return None;
        }
        i += 1;
    }
    assert(all_digits(s@));
    let mut v: u64 = 0;
    let mut k: usize = 0;
    while k < n
        invariant
            k <= n == s@.len(),
            all_digits(s@),
            v == digits_value(s@.take(k as int)),
            v <= u32::MAX,
        decreases n - k,
    {
        assert(is_digit(s@[k as int]));
        let d: u64 = s[k] as u64 - '0' as u64;
        v = v * 10 + d;
        proof {
            assert(s@.take(k + 1).drop_last() =~= s@.take(k as int));
            assert(s@.take(k + 1).last() == s@[k as int]);
        }
        k += 1;
        if v > u32::MAX as u64 {
            proof {
                lemma_digits_grow(s@, k as int);
            }
            return None;
        }
    }
    assert(s@.take(k as int) =~= s@);
    Some(v as u32)
}

/// A number is read back from its decimal digits.
pub proof fn law_decimal_round_trip(n: nat)
    ensures
        decimal(n).len() > 0,
        all_digits(decimal(n)),
        digits_value(decimal(n)) == n,
        n <= u32::MAX ==> parsed_u32(decimal(n)) == Some(n as u32),
    decreases n,
{
    if n < 10 {
        let one = decimal(n);
        assert(one.drop_last() =~= Seq::empty());
        assert(digits_value(one.drop_last()) == 0);
    } else {
        law_decimal_round_trip(n / 10);
        let init = decimal(n / 10);
        let all = decimal(n);
        assert(all.drop_last() =~= init);
        assert forall|i: int| 0 <= i < all.len() implies is_digit(#[trigger] all[i]) by {
            if i < init.len() {
                assert(all[i] == init[i]);
            }
        }
    }
}

/// A number has no more digits than one more than itself, all of them ASCII.
pub proof fn lemma_decimal_short(n: nat)
    ensures
        decimal(n).len() <= n + 1,
        is_ascii_chars(decimal(n)),
    decreases n,
{
    law_decimal_round_trip(n);
    if n >= 10 {
        lemma_decimal_short(n / 10);
    }
    assert forall|i: int| 0 <= i < decimal(n).len() implies '\0' <= #[trigger] decimal(n)[i]
        <= '\u{7f}' by {
        assert(is_digit(decimal(n)[i]));
    }
}

// ---- cutting text up ----

/// The characters of Unicode's White_Space property.
pub open spec fn is_space(c: char) -> bool {
    let n = c as u32;
    ||| 0x09 <= n <= 0x0d
    ||| n == 0x20
    ||| n == 0x85
    ||| n == 0xa0
    ||| n == 0x1680
    ||| 0x2000 <= n <= 0x200a
    ||| n == 0x2028
    ||| n == 0x2029
    ||| n == 0x202f
    ||| n == 0x205f
    ||| n == 0x3000
}

/// Whether `c` is white space.
pub fn is_whitespace(c: char) -> (r: bool)
    ensures
        r == is_space(c),
{
    let n: u32 = c as u32;
    (0x09 <= n && n <= 0x0d) || n == 0x20 || n == 0x85 || n == 0xa0 || n == 0x1680 || (0x2000 <= n
        && n <= 0x200a) || n == 0x2028 || n == 0x2029 || n == 0x202f || n == 0x205f || n == 0x3000
}

/// `s` without the white space it starts with.
pub open spec fn trimmed_start(s: Seq<char>) -> Seq<char>
    decreases s.len(),
{
    if s.len() > 0 && is_space(s[0]) {
        trimmed_start(s.skip(1))
    } else {
        s
    }
}

/// `s` without the white space it ends with.
pub open spec fn trimmed_end(s: Seq<char>) -> Seq<char>
    decreases s.len(),
{
    if s.len() > 0 && is_space(s.last()) {
        trimmed_end(s.drop_last())
    } else {
        s
    }
}

/// `s` without white space at either end.
pub open spec fn trimmed(s: Seq<char>) -> Seq<char> {
    trimmed_end(trimmed_start(s))
}

/// `s` without white space at either end.
pub fn trim(s: &str) -> (r: String)
    ensures
        r@ == trimmed(s@),
{
    let cs = chars_of(s);
    let n: usize = cs.len();
    let mut from: usize = 0;
    assert(cs@.skip(0) =~= s@);
    while from < n && is_whitespace(cs[from])
        invariant
            from <= n == cs@.len(),
            trimmed_start(cs@.skip(from as int)) == trimmed_start(s@),
        ensures
            from <= n,
            cs@.skip(from as int) == trimmed_start(s@),
        decreases n - from,
    {
        assert(cs@.skip(from as int).skip(1) =~= cs@.skip(from + 1));
        from += 1;
    }
    let mut to: usize = n;
    assert(cs@.subrange(from as int, n as int) =~= cs@.skip(from as int));
    while to > from && is_whitespace(cs[to - 1])
        invariant
            from <= to <= n == cs@.len(),
            trimmed_end(cs@.subrange(from as int, to as int)) == trimmed(s@),
        ensures
            from <= to <= n,
            cs@.subrange(from as int, to as int) == trimmed(s@),
        decreases to - from,
    {
        assert(cs@.subrange(from as int, to as int).drop_last() =~= cs@.subrange(
            from as int,
            to - 1,
        ));
        to -= 1;
    }
    slice_text(cs.as_slice(), from, to)
}

/// `s` without the characters `c` it ends with.
pub open spec fn without_trailing(s: Seq<char>, c: char) -> Seq<char>
    decreases s.len(),
{
    if s.len() > 0 && s.last() == c {
        without_trailing(s.drop_last(), c)
    } else {
        s
    }
}

/// `s` without the characters `c` it ends with.
pub fn trim_end_char(s: &str, c: char) -> (r: String)
    ensures
        r@ == without_trailing(s@, c),
{
    let cs = chars_of(s);
    let n: usize = cs.len();
    let mut to: usize = n;
    assert(cs@.take(n as int) =~= s@);
    while to > 0 && cs[to - 1] == c
        invariant
            to <= n == cs@.len(),
            without_trailing(cs@.take(to as int), c) == without_trailing(s@, c),
        ensures
            to <= n,
            cs@.take(to as int) == without_trailing(s@, c),
        decreases to,
    {
        assert(cs@.take(to as int).drop_last() =~= cs@.take(to - 1));
        to -= 1;
    }
    slice_text(cs.as_slice(), 0, to)
}

/// What stands in `s` before its first `c`; all of `s` where it has none.
pub open spec fn until(s: Seq<char>, c: char) -> Seq<char>
    decreases s.len(),
{
    if s.len() == 0 || s[0] == c {
        Seq::empty()
    } else {
        seq![s[0]] + until(s.skip(1), c)
    }
}

/// The part before the first `c` holds no `c`, and is all there is of `s` up
/// to one.
pub proof fn lemma_until(s: Seq<char>, c: char)
    ensures
        until(s, c).len() <= s.len(),
        until(s, c) == s.take(until(s, c).len() as int),
        forall|i: int| 0 <= i < until(s, c).len() ==> s[i] != c,
        until(s, c).len() < s.len() ==> s[until(s, c).len() as int] == c,
    decreases s.len(),
{
    if s.len() > 0 && s[0] != c {
        lemma_until(s.skip(1), c);
        let n = until(s.skip(1), c).len() as int;
        assert(until(s, c) =~= s.take(n + 1));
        assert forall|i: int| 0 <= i < n + 1 implies s[i] != c by {
            if i > 0 {
                assert(s[i] == s.skip(1)[i - 1]);
            }
        }
    } else {
        assert(until(s, c) =~= s.take(0));
    }
}

/// What stands in `s` before its first `c`.
pub fn before_char(s: &str, c: char) -> (r: String)
    ensures
        r@ == until(s@, c),
{
    let cs = chars_of(s);
    let n: usize = cs.len();
    let mut i: usize = 0;
    while i < n && cs[i] != c
        invariant
            i <= n == cs@.len(),
            cs@ == s@,
            forall|j: int| 0 <= j < i ==> s@[j] != c,
        ensures
            i <= n,
            forall|j: int| 0 <= j < i ==> s@[j] != c,
            i < n ==> s@[i as int] == c,
        decreases n - i,
    {
        i += 1;
    }
    proof {
        lemma_until(s@, c);
        let m = until(s@, c).len() as int;
        assert(m == i);
        assert(cs@.subrange(0, i as int) =~= s@.take(m));
    }
    slice_text(cs.as_slice(), 0, i)
}

/// What stands between the separators of `s`, empty pieces included.
pub open spec fn pieces<T>(s: Seq<T>, sep: spec_fn(T) -> bool) -> Seq<Seq<T>>
    decreases s.len(),
{
    if s.len() == 0 {
        seq![Seq::empty()]
    } else {
        let before = pieces(s.drop_last(), sep);
        if sep(s.last()) {
            before.push(Seq::empty())
        } else {
            before.drop_last().push(before.last().push(s.last()))
        }
    }
}

/// The rows of a text: what stands between its line feeds.
pub open spec fn rows(s: Seq<char>) -> Seq<Seq<char>> {
    pieces(s, |c: char| c == '\n')
}

/// The pieces that are not empty.
pub open spec fn nonempty(ps: Seq<Seq<char>>) -> Seq<Seq<char>>
    decreases ps.len(),
{
    if ps.len() == 0 {
        Seq::empty()
    } else if ps.last().len() == 0 {
        nonempty(ps.drop_last())
    } else {
        nonempty(ps.drop_last()).push(ps.last())
    }
}

/// The words of a text: what stands between runs of white space.
pub open spec fn words(s: Seq<char>) -> Seq<Seq<char>> {
    nonempty(pieces(s, |c: char| is_space(c)))
}

/// Splits `s` into its rows.
pub fn split_rows(s: &str) -> (r: Vec<String>)
    ensures
        texts(r@) == rows(s@),
{
    broadcast use lemma_texts_push;

    let ghost sep = |c: char| c == '\n';
    let cs = chars_of(s);
    let mut done: Vec<String> = Vec::new();
    let mut cur = String::new();
    let mut i: usize = 0;
    assert(texts(done@).push(cur@) =~= pieces(cs@.take(0), sep));
    while i < cs.len()
        invariant
            i <= cs@.len(),
            sep == (|c: char| c == '\n'),
            texts(done@).push(cur@) == pieces(cs@.take(i as int), sep),
        decreases cs@.len() - i,
    {
        let ghost before = texts(done@).push(cur@);
        proof {
            assert(cs@.take(i + 1).drop_last() =~= cs@.take(i as int));
            assert(cs@.take(i + 1).last() == cs@[i as int]);
            assert(before.drop_last() =~= texts(done@));
        }
        if cs[i] == '\n' {
            done.push(cur);
            cur = String::new();
            assert(cur@ =~= Seq::empty());
        } else {
            cur.push(cs[i]);
        }
        i += 1;
    }
    assert(cs@.take(i as int) =~= s@);
    done.push(cur);
    done
}

/// Splits `s` into its words.
pub fn split_words(s: &str) -> (r: Vec<String>)
    ensures
        texts(r@) == words(s@),
{
    broadcast use lemma_texts_push;

    let ghost sep = |c: char| is_space(c);
    let cs = chars_of(s);
    let mut done: Vec<String> = Vec::new();
    let mut cur = String::new();
    let mut i: usize = 0;
    assert(pieces(cs@.take(0), sep) =~= seq![cur@]);
    assert(pieces(cs@.take(0), sep).drop_last() =~= Seq::empty());
    assert(texts(done@) =~= nonempty(pieces(cs@.take(0), sep).drop_last()));
    while i < cs.len()
        invariant
            i <= cs@.len(),
            sep == (|c: char| is_space(c)),
            pieces(cs@.take(i as int), sep).len() > 0,
            cur@ == pieces(cs@.take(i as int), sep).last(),
            texts(done@) == nonempty(pieces(cs@.take(i as int), sep).drop_last()),
        decreases cs@.len() - i,
    {
        let ghost before = pieces(cs@.take(i as int), sep);
        let ghost after = pieces(cs@.take(i + 1), sep);
        proof {
            assert(cs@.take(i + 1).drop_last() =~= cs@.take(i as int));
            assert(cs@.take(i + 1).last() == cs@[i as int]);
        }
        if is_whitespace(cs[i]) {
            proof {
                assert(after =~= before.push(Seq::empty()));
                assert(after.drop_last() =~= before);
            }
            if !cur.as_str().is_empty() {
                done.push(cur);
            }
            cur = String::new();
            assert(cur@ =~= Seq::empty());
        } else {
            proof {
                assert(after =~= before.drop_last().push(cur@.push(cs@[i as int])));
                assert(after.drop_last() =~= before.drop_last());
            }
            cur.push(cs[i]);
        }
        i += 1;
    }
    assert(cs@.take(i as int) =~= s@);
    if !cur.as_str().is_empty() {
        done.push(cur);
    }
    done
}

/// The texts with one blank between neighbours.
pub open spec fn spaced(ts: Seq<Seq<char>>) -> Seq<char>
    decreases ts.len(),
{
    if ts.len() == 0 {
        Seq::empty()
    } else if ts.len() == 1 {
        ts[0]
    } else {
        spaced(ts.drop_last()) + " "@ + ts.last()
    }
}

/// Joins the texts with blanks.
pub fn join_spaced(ts: &[String]) -> (r: String)
    ensures
        r@ == spaced(texts(ts@)),
{
    let mut out = String::new();
    let mut i: usize = 0;
    assert(out@ =~= spaced(texts(ts@).take(0)));
    while i < ts.len()
        invariant
            i <= ts@.len(),
            out@ == spaced(texts(ts@).take(i as int)),
        decreases ts@.len() - i,
    {
        proof {
            assert(texts(ts@).take(i + 1).drop_last() =~= texts(ts@).take(i as int));
            assert(texts(ts@).take(i + 1).last() == ts@[i as int]@);
        }
        if i > 0 {
            out.append(" ");
        }
        out.append(ts[i].as_str());
        proof {
            if i == 0 {
                assert(out@ =~= ts@[0]@);
                assert(spaced(texts(ts@).take(1)) == ts@[0]@);
            }
        }
        i += 1;
    }
    assert(texts(ts@).take(i as int) =~= texts(ts@));
    out
}

/// What is put in front of a text is what it begins with, and what follows
/// is the text.
pub proof fn lemma_prefixed<T>(a: Seq<T>, b: Seq<T>)
    ensures
        starts_with(a + b, a),
        (a + b).skip(a.len() as int) == b,
{
    assert((a + b).subrange(0, a.len() as int) =~= a);
    assert((a + b).skip(a.len() as int) =~= b);
}

/// A text that begins with a prefix is the prefix and what follows it.
pub proof fn lemma_prefix_apart<T>(s: Seq<T>, a: Seq<T>)
    requires
        starts_with(s, a),
    ensures
        a.len() <= s.len(),
        s == a + s.skip(a.len() as int),
        forall|i: int| 0 <= i < a.len() ==> s[i] == a[i],
{
    assert forall|i: int| 0 <= i < a.len() implies s[i] == a[i] by {
        assert(s.subrange(0, a.len() as int)[i] == s[i]);
    }
    assert(s =~= a + s.skip(a.len() as int));
}

/// A text that differs from a prefix in one place does not begin with it.
pub proof fn lemma_not_prefixed<T>(s: Seq<T>, a: Seq<T>, i: int)
    requires
        0 <= i < a.len(),
        i < s.len() ==> s[i] != a[i],
    ensures
        !starts_with(s, a),
{
    if starts_with(s, a) {
        lemma_prefix_apart(s, a);
    }
}

/// A number in decimal is made of the digits 0 to 9 and begins with 0 only
/// where it is 0.
pub proof fn law_decimal_plain(n: nat)
    ensures
        decimal(n).len() > 0,
        forall|i: int| 0 <= i < decimal(n).len() ==> '0' <= #[trigger] decimal(n)[i] <= '9',
        decimal(n)[0] == '0' <==> n == 0,
        n < 10 <==> decimal(n).len() == 1,
        decimal(n).last() as int == '0' as int + n % 10,
    decreases n,
{
    law_decimal_round_trip(n);
    assert forall|i: int| 0 <= i < decimal(n).len() implies '0' <= #[trigger] decimal(n)[i]
        <= '9' by {
        assert(is_digit(decimal(n)[i]));
    }
    if n >= 10 {
        law_decimal_plain(n / 10);
        assert(decimal(n)[0] == decimal(n / 10)[0]);
    }
}

/// White space is what separates words on a terminal; nothing that can be
/// seen there is.
pub proof fn law_spaces(c: char)
    ensures
        is_space(' ') && is_space('\t') && is_space('\n') && is_space('\r'),
        '!' <= c <= '~' ==> !is_space(c),
{
}

/// Trimming takes white space away, at the ends and nowhere else, and leaves
/// none there.
pub proof fn law_trimmed(s: Seq<char>)
    ensures
        trimmed(s).len() > 0 ==> !is_space(trimmed(s)[0]) && !is_space(trimmed(s).last()),
        exists|i: int|
            {
                &&& 0 <= i <= i + trimmed(s).len() <= s.len()
                &&& trimmed(s) == #[trigger] s.subrange(i, i + trimmed(s).len())
                &&& forall|j: int|
                    (0 <= j < i || i + trimmed(s).len() <= j < s.len()) ==> is_space(#[trigger] s[j])
            },
{
    let i = lemma_trimmed_start(s);
    let t = trimmed_start(s);
    let n = lemma_trimmed_end(t);
    assert(s.skip(i).take(n) =~= s.subrange(i, i + n));
    assert forall|j: int| (0 <= j < i || i + n <= j < s.len()) implies is_space(#[trigger] s[j]) by {
        if j >= i {
            assert(t[j - i] == s[j]);
        }
    }
    if n > 0 {
        assert(trimmed(s)[0] == t[0]);
    }
}

proof fn lemma_trimmed_start(s: Seq<char>) -> (i: int)
    ensures
        0 <= i <= s.len(),
        trimmed_start(s) == s.skip(i),
        forall|j: int| 0 <= j < i ==> is_space(#[trigger] s[j]),
        i < s.len() ==> !is_space(s[i]),
    decreases s.len(),
{
    if s.len() > 0 && is_space(s[0]) {
        let m = lemma_trimmed_start(s.skip(1));
        assert(s.skip(1).skip(m) =~= s.skip(m + 1));
        assert forall|j: int| 0 <= j < m + 1 implies is_space(#[trigger] s[j]) by {
            if j > 0 {
                assert(s.skip(1)[j - 1] == s[j]);
            }
        }
        if m + 1 < s.len() {
            assert(s.skip(1)[m] == s[m + 1]);
        }
        m + 1
    } else {
        assert(s.skip(0) =~= s);
        0
    }
}

proof fn lemma_trimmed_end(s: Seq<char>) -> (n: int)
    ensures
        0 <= n <= s.len(),
        trimmed_end(s) == s.take(n),
        forall|j: int| n <= j < s.len() ==> is_space(#[trigger] s[j]),
        n > 0 ==> !is_space(s[n - 1]),
    decreases s.len(),
{
    if s.len() > 0 && is_space(s.last()) {
        let m = lemma_trimmed_end(s.drop_last());
        assert(s.drop_last().take(m) =~= s.take(m));
        assert forall|j: int| m <= j < s.len() implies is_space(#[trigger] s[j]) by {
            if j < s.len() - 1 {
                assert(s.drop_last()[j] == s[j]);
            }
        }
        m
    } else {
        assert(s.take(s.len() as int) =~= s);
        s.len() as int
    }
}

/// A text without separators is one piece.
pub proof fn lemma_one_piece<T>(s: Seq<T>, sep: spec_fn(T) -> bool)
    requires
        forall|i: int| 0 <= i < s.len() ==> !sep(#[trigger] s[i]),
    ensures
        pieces(s, sep) == seq![s],
    decreases s.len(),
{
    if s.len() > 0 {
        assert forall|i: int| 0 <= i < s.drop_last().len() implies !sep(
            #[trigger] s.drop_last()[i],
        ) by {
            assert(s.drop_last()[i] == s[i]);
        }
        lemma_one_piece(s.drop_last(), sep);
        assert(s.drop_last().push(s.last()) =~= s);
        assert(pieces(s, sep) =~= seq![s]);
    } else {
        assert(pieces(s, sep) =~= seq![s]) by {
            assert(s =~= Seq::<T>::empty());
        }
    }
}

/// The pieces on either side of a separator are the pieces of the whole.
pub proof fn lemma_pieces_joined<T>(a: Seq<T>, c: T, b: Seq<T>, sep: spec_fn(T) -> bool)
    requires
        sep(c),
    ensures
        pieces(a.push(c) + b, sep) == pieces(a, sep) + pieces(b, sep),
        pieces(b, sep).len() > 0,
    decreases b.len(),
{
    let s = a.push(c) + b;
    if b.len() == 0 {
        assert(s =~= a.push(c));
        assert(s.drop_last() =~= a);
        assert(b =~= Seq::<T>::empty());
        assert(pieces(s, sep) =~= pieces(a, sep) + pieces(b, sep));
    } else {
        assert(s.drop_last() =~= a.push(c) + b.drop_last());
        assert(s.last() == b.last());
        lemma_pieces_joined(a, c, b.drop_last(), sep);
        let before = pieces(b.drop_last(), sep);
        let all = pieces(a, sep) + before;
        assert(all.last() == before.last());
        assert(all.drop_last() =~= pieces(a, sep) + before.drop_last());
        assert(pieces(s, sep) =~= pieces(a, sep) + pieces(b, sep));
    }
}

proof fn lemma_nonempty_joined(a: Seq<Seq<char>>, b: Seq<Seq<char>>)
    ensures
        nonempty(a + b) == nonempty(a) + nonempty(b),
    decreases b.len(),
{
    if b.len() == 0 {
        assert(a + b =~= a);
        assert(nonempty(a) + nonempty(b) =~= nonempty(a));
    } else {
        assert((a + b).drop_last() =~= a + b.drop_last());
        assert((a + b).last() == b.last());
        lemma_nonempty_joined(a, b.drop_last());
        assert(nonempty(a + b) =~= nonempty(a) + nonempty(b));
    }
}

/// A text of one row is its row, and rows go on behind each line break.
pub proof fn law_rows(a: Seq<char>, b: Seq<char>)
    ensures
        !a.contains('\n') ==> rows(a) == seq![a],
        rows(a.push('\n') + b) == rows(a) + rows(b),
{
    let sep = |c: char| c == '\n';
    lemma_pieces_joined(a, '\n', b, sep);
    if !a.contains('\n') {
        assert forall|i: int| 0 <= i < a.len() implies !sep(#[trigger] a[i]) by {
            assert(a.contains(a[i]));
        }
        lemma_one_piece(a, sep);
    }
}

/// Nothing has no words, what has no white space is its own word, and white
/// space between two texts keeps their words apart and adds none.
pub proof fn law_words(a: Seq<char>, c: char, b: Seq<char>)
    requires
        is_space(c),
    ensures
        a.len() == 0 ==> words(a) == Seq::<Seq<char>>::empty(),
        a.len() > 0 && (forall|i: int| 0 <= i < a.len() ==> !is_space(#[trigger] a[i])) ==> words(a)
            == seq![a],
        words(a.push(c) + b) == words(a) + words(b),
{
    let sep = |c: char| is_space(c);
    lemma_pieces_joined(a, c, b, sep);
    lemma_nonempty_joined(pieces(a, sep), pieces(b, sep));
    if forall|i: int| 0 <= i < a.len() ==> !is_space(#[trigger] a[i]) {
        lemma_one_piece(a, sep);
        let one = pieces(a, sep);
        assert(one.drop_last() =~= Seq::empty());
        assert(nonempty(one.drop_last()) =~= Seq::empty());
        if a.len() > 0 {
            assert(nonempty(one) =~= seq![a]);
        }
    }
}

/// Texts are joined by one blank each, in their order.
pub proof fn law_spaced(ts: Seq<Seq<char>>, t: Seq<char>)
    ensures
        spaced(seq![t]) == t,
        ts.len() > 0 ==> spaced(ts.push(t)) == spaced(ts) + seq![' '] + t,
{
    reveal_strlit(" ");
    assert(" "@ =~= seq![' ']);
    assert(ts.push(t).drop_last() =~= ts);
}

/// Taking trailing characters away takes all of them, and nothing else.
pub proof fn law_without_trailing(s: Seq<char>, c: char)
    ensures
        ({
            let r = without_trailing(s, c);
            &&& r.len() <= s.len()
            &&& r == s.take(r.len() as int)
            &&& r.len() > 0 ==> r.last() != c
            &&& forall|i: int| r.len() <= i < s.len() ==> #[trigger] s[i] == c
        }),
    decreases s.len(),
{
    let r = without_trailing(s, c);
    if s.len() > 0 && s.last() == c {
        law_without_trailing(s.drop_last(), c);
        assert(s.drop_last().take(r.len() as int) =~= s.take(r.len() as int));
        assert forall|i: int| r.len() <= i < s.len() implies #[trigger] s[i] == c by {
            if i < s.len() - 1 {
                assert(s.drop_last()[i] == s[i]);
            }
        }
    } else {
        assert(s.take(s.len() as int) =~= s);
    }
}

/// White space at the ends of a text is no part of its words.
pub proof fn law_words_of_trimmed(s: Seq<char>)
    ensures
        words(trimmed(s)) == words(s),
{
    lemma_words_from_start(s);
    lemma_words_to_end(trimmed_start(s));
}

proof fn lemma_words_from_start(s: Seq<char>)
    ensures
        words(trimmed_start(s)) == words(s),
    decreases s.len(),
{
    if s.len() > 0 && is_space(s[0]) {
        let none = Seq::<char>::empty();
        lemma_words_from_start(s.skip(1));
        law_words(none, s[0], s.skip(1));
        assert(none.push(s[0]) + s.skip(1) =~= s);
        assert(words(none) + words(s.skip(1)) =~= words(s.skip(1)));
    }
}

proof fn lemma_words_to_end(s: Seq<char>)
    ensures
        words(trimmed_end(s)) == words(s),
    decreases s.len(),
{
    if s.len() > 0 && is_space(s.last()) {
        let none = Seq::<char>::empty();
        let init = s.drop_last();
        lemma_words_to_end(init);
        law_words(init, s.last(), none);
        law_words(none, s.last(), none);
        assert(init.push(s.last()) + none =~= s);
        assert(words(init) + words(none) =~= words(init));
    }
}

/// What stands between two texts stands in the whole.
pub proof fn lemma_contained(a: Seq<char>, b: Seq<char>, c: Seq<char>)
    ensures
        contains(a + b + c, b),
        contains(a + b, b),
{
    let at = a.len() as int;
    assert((a + b + c).subrange(at, at + b.len()) =~= b);
    assert(stands_at(a + b + c, at, b));
    assert((a + b).subrange(at, at + b.len()) =~= b);
    assert(stands_at(a + b, at, b));
}

/// A number below zero is written with a minus sign in front of the number
/// without it.
pub proof fn law_signed(n: nat)
    ensures
        signed_decimal(n as int) == decimal(n),
        n > 0 ==> signed_decimal(-(n as int)) == seq!['-'] + decimal(n),
{
}

}
