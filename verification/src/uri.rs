//! Percent-encoding: how a path of any characters becomes part of a URI.

use percent_encoding::utf8_percent_encode;
use vstd::prelude::*;
use vstd::utf8::*;

use crate::text;
use crate::text::{chars_of, string_of};

verus! {

/// An ASCII letter or digit.
pub open spec fn alphanumeric(b: u8) -> bool {
    48 <= b <= 57 || 65 <= b <= 90 || 97 <= b <= 122
}

/// The upper-case hexadecimal digit of `n`.
pub open spec fn hex_digit(n: int) -> char {
    if n < 10 {
        (48 + n) as char
    } else {
        (55 + n) as char
    }
}

/// One byte in a URI: itself where it is a letter, a digit or one of `keep`,
/// else `%` and its two hexadecimal digits.
pub open spec fn escaped_byte(b: u8, keep: Seq<u8>) -> Seq<char> {
    if alphanumeric(b) || keep.contains(b) {
        seq![b as char]
    } else {
        seq!['%', hex_digit(b as int / 16), hex_digit(b as int % 16)]
    }
}

/// Bytes in a URI, one after the other.
pub open spec fn escaped(bytes: Seq<u8>, keep: Seq<u8>) -> Seq<char>
    decreases bytes.len(),
{
    if bytes.len() == 0 {
        Seq::empty()
    } else {
        escaped_byte(bytes[0], keep) + escaped(bytes.skip(1), keep)
    }
}

/// The marks a path keeps in a URI besides letters and digits: `/ - _ . ~`.
pub open spec fn path_marks() -> Seq<u8> {
    seq![47u8, 45u8, 95u8, 46u8, 126u8]
}

/// A path in a URI.
pub open spec fn escaped_path(path: Seq<char>) -> Seq<char> {
    escaped(encode_utf8(path), path_marks())
}

/// `percent_encoding::utf8_percent_encode` with `NON_ALPHANUMERIC`: the bytes
/// of the text's UTF-8 encoding in order, ASCII letters and digits as they
/// are, every other byte as `%` and two upper-case hexadecimal digits.
#[verifier::external_body]
fn percent_encoded(s: &str) -> (r: String)
    ensures
        r@ == escaped(encode_utf8(s@), Seq::empty()),
{
    utf8_percent_encode(s, percent_encoding::NON_ALPHANUMERIC).to_string()
}

/// UTF-8 encodes texts one after the other.
pub proof fn lemma_encode_concat(a: Seq<char>, b: Seq<char>)
    ensures
        encode_utf8(a + b) == encode_utf8(a) + encode_utf8(b),
    decreases a.len(),
{
    if a.len() == 0 {
        assert(a + b =~= b);
        assert(encode_utf8(a) + encode_utf8(b) =~= encode_utf8(b));
    } else {
        assert((a + b).drop_first() =~= a.drop_first() + b);
        lemma_encode_concat(a.drop_first(), b);
        assert(encode_utf8(a + b) =~= encode_utf8(a) + encode_utf8(b));
    }
}

/// Escaping takes bytes one after the other.
proof fn lemma_escaped_concat(a: Seq<u8>, b: Seq<u8>, keep: Seq<u8>)
    ensures
        escaped(a + b, keep) == escaped(a, keep) + escaped(b, keep),
    decreases a.len(),
{
    if a.len() == 0 {
        assert(a + b =~= b);
        assert(escaped(a, keep) + escaped(b, keep) =~= escaped(b, keep));
    } else {
        assert((a + b).skip(1) =~= a.skip(1) + b);
        lemma_escaped_concat(a.skip(1), b, keep);
        assert(escaped(a + b, keep) =~= escaped(a, keep) + escaped(b, keep));
    }
}

/// A character is encoded as itself where it is ASCII, and else in bytes that
/// are not.
proof fn lemma_encode_char(c: char)
    ensures
        (c as u32) < 128 ==> encode_utf8(seq![c]) == seq![c as u8],
        (c as u32) >= 128 ==> forall|i: int|
            0 <= i < encode_utf8(seq![c]).len() ==> #[trigger] encode_utf8(seq![c])[i] >= 128,
{
    let n = c as u32;
    let one = seq![c];
    assert(one.drop_first() =~= Seq::empty());
    assert(encode_utf8(one.drop_first()) =~= Seq::empty());
    assert(encode_utf8(one) =~= encode_scalar(n));
    char_is_scalar(c);
    if n < 128 {
        assert(is_ascii_chars(one));
        is_ascii_chars_encode_utf8(one);
        assert(encode_utf8(one) =~= seq![c as u8]);
    } else {
        assert(0xC0u8 | ((n >> 6) & 0x1F) as u8 >= 128) by (bit_vector);
        assert(0xE0u8 | ((n >> 12) & 0x0F) as u8 >= 128) by (bit_vector);
        assert(0xF0u8 | ((n >> 18) & 0x7) as u8 >= 128) by (bit_vector);
        assert(0x80u8 | (n & 0x3F) as u8 >= 128) by (bit_vector);
        assert(0x80u8 | ((n >> 6) & 0x3F) as u8 >= 128) by (bit_vector);
        assert(0x80u8 | ((n >> 12) & 0x3F) as u8 >= 128) by (bit_vector);
    }
}

/// Keeping bytes that do not occur changes nothing.
proof fn lemma_escaped_keep(bytes: Seq<u8>, keep: Seq<u8>)
    requires
        forall|i: int| 0 <= i < bytes.len() ==> !keep.contains(#[trigger] bytes[i]),
    ensures
        escaped(bytes, keep) == escaped(bytes, Seq::empty()),
    decreases bytes.len(),
{
    if bytes.len() > 0 {
        assert(!keep.contains(bytes[0]));
        assert(!Seq::<u8>::empty().contains(bytes[0]));
        assert forall|i: int| 0 <= i < bytes.skip(1).len() implies !keep.contains(
            #[trigger] bytes.skip(1)[i],
        ) by {
            assert(bytes.skip(1)[i] == bytes[i + 1]);
        }
        lemma_escaped_keep(bytes.skip(1), keep);
    }
}

/// One character of a path in a URI.
proof fn lemma_escaped_char(c: char, kept: bool)
    requires
        kept == (c == '/' || c == '-' || c == '_' || c == '.' || c == '~'),
    ensures
        kept ==> escaped_path(seq![c]) == seq![c],
        !kept ==> escaped_path(seq![c]) == escaped(encode_utf8(seq![c]), Seq::empty()),
{
    let bytes = encode_utf8(seq![c]);
    let marks = path_marks();
    lemma_encode_char(c);
    if kept {
        assert(bytes == seq![c as u8]);
        assert(marks[0] == 47 && marks[1] == 45 && marks[2] == 95 && marks[3] == 46 && marks[4]
            == 126);
        assert(marks.contains(c as u8));
        assert(bytes.skip(1) =~= Seq::empty());
        assert(escaped(bytes.skip(1), marks) =~= Seq::empty());
        assert(escaped(bytes, marks) =~= seq![c]);
    } else {
        assert forall|i: int| 0 <= i < bytes.len() implies !marks.contains(#[trigger] bytes[i]) by {
            if marks.contains(bytes[i]) {
                let k = choose|k: int| 0 <= k < marks.len() && marks[k] == bytes[i];
                assert(bytes[i] < 128);
                assert(bytes[i] == c as u8);
                assert(false);
            }
        }
        lemma_escaped_keep(bytes, marks);
    }
}

/// Encodes a path for a URI: everything except letters, digits and `/ - _ .
/// ~` is escaped. The five marks are no part of the set that is escaped, so
/// they go past the call that escapes the rest.
pub fn encode_path(path: &str) -> (r: String)
    ensures
        r@ == escaped_path(path@),
{
    let cs = chars_of(path);
    let mut out = String::new();
    let mut i: usize = 0;
    assert(cs@.take(0) =~= Seq::empty());
    assert(out@ =~= escaped_path(cs@.take(0)));
    while i < cs.len()
        invariant
            i <= cs@.len(),
            out@ == escaped_path(cs@.take(i as int)),
        decreases cs@.len() - i,
    {
        let c: char = cs[i];
        let kept = c == '/' || c == '-' || c == '_' || c == '.' || c == '~';
        proof {
            let before = cs@.take(i as int);
            assert(cs@.take(i + 1) =~= before + seq![c]);
            lemma_encode_concat(before, seq![c]);
            lemma_escaped_concat(encode_utf8(before), encode_utf8(seq![c]), path_marks());
            lemma_escaped_char(c, kept);
        }
        if kept {
            out.push(c);
            assert(out@ =~= escaped_path(cs@.take(i as int)) + seq![c]);
        } else {
            let one = string_of(vstd::slice::slice_subrange(cs.as_slice(), i, i + 1));
            assert(one@ =~= seq![c]);
            out.append(percent_encoded(one.as_str()).as_str());
        }
        i += 1;
    }
    assert(cs@.take(i as int) =~= path@);
    out
}

// ---- what a reader of the URI gets back ----

/// The value of a hexadecimal digit.
pub open spec fn hex_value(c: char) -> Option<int> {
    let n = c as u32;
    if 48 <= n <= 57 {
        Some(n - 48)
    } else if 65 <= n <= 70 {
        Some(n - 55)
    } else if 97 <= n <= 102 {
        Some(n - 87)
    } else {
        None
    }
}

/// The bytes that a percent-encoded text stands for, where it is one: an
/// ASCII character for itself, `%` and two hexadecimal digits for the byte
/// they name.
pub open spec fn unescaped(s: Seq<char>) -> Option<Seq<u8>>
    decreases s.len(),
{
    if s.len() == 0 {
        Some(Seq::empty())
    } else if s[0] == '%' {
        if s.len() < 3 {
            None
        } else {
            match (hex_value(s[1]), hex_value(s[2]), unescaped(s.skip(3))) {
                (Some(h), Some(l), Some(rest)) => Some(seq![(16 * h + l) as u8] + rest),
                _ => None,
            }
        }
    } else if (s[0] as u32) < 128 {
        match unescaped(s.skip(1)) {
            Some(rest) => Some(seq![s[0] as u8] + rest),
            None => None,
        }
    } else {
        None
    }
}

/// Bytes survive escaping, whatever ASCII bytes other than `%` are kept.
pub proof fn law_escaping_reversible(bytes: Seq<u8>, keep: Seq<u8>)
    requires
        forall|i: int| 0 <= i < keep.len() ==> #[trigger] keep[i] < 128 && keep[i] != 37,
    ensures
        unescaped(escaped(bytes, keep)) == Some(bytes),
    decreases bytes.len(),
{
    let s = escaped(bytes, keep);
    if bytes.len() == 0 {
        assert(bytes =~= Seq::empty());
    } else {
        let b = bytes[0];
        let rest = bytes.skip(1);
        law_escaping_reversible(rest, keep);
        let head = escaped_byte(b, keep);
        assert(seq![b] + rest =~= bytes);
        if alphanumeric(b) || keep.contains(b) {
            if keep.contains(b) {
                let k = choose|k: int| 0 <= k < keep.len() && keep[k] == b;
                assert(keep[k] < 128 && keep[k] != 37);
            }
            assert(s.skip(1) =~= escaped(rest, keep));
            assert(s[0] == b as char);
            assert(s[0] != '%');
        } else {
            let h = b as int / 16;
            let l = b as int % 16;
            assert(s.skip(3) =~= escaped(rest, keep));
            assert(s[0] == '%' && s[1] == hex_digit(h) && s[2] == hex_digit(l));
            assert(hex_value(hex_digit(h)) == Some(h));
            assert(hex_value(hex_digit(l)) == Some(l));
            assert(16 * h + l == b);
        }
    }
}

/// Paths with blanks, Unicode and anything else survive the URI trip.
pub proof fn law_path_survives(path: Seq<char>)
    ensures
        unescaped(escaped_path(path)) == Some(encode_utf8(path)),
        text::text_of(unescaped(escaped_path(path))->0) == path,
{
    let marks = path_marks();
    assert forall|i: int| 0 <= i < marks.len() implies #[trigger] marks[i] < 128 && marks[i]
        != 37 by {
        assert(marks[0] == 47 && marks[1] == 45 && marks[2] == 95 && marks[3] == 46 && marks[4]
            == 126);
    }
    law_escaping_reversible(encode_utf8(path), marks);
    text::lemma_text_of_utf8(path);
}

/// A character that a path leaves in a URI.
pub open spec fn uri_safe(c: char) -> bool {
    c == '%' || ((c as u32) < 128 && (alphanumeric(c as u8) || path_marks().contains(c as u8)))
}

/// Nothing but letters, digits, `/ - _ . ~` and `%` is left of a path in a
/// URI.
pub proof fn law_escaped_path_safe(path: Seq<char>)
    ensures
        forall|i: int| 0 <= i < escaped_path(path).len() ==> uri_safe(#[trigger] escaped_path(path)[i]),
{
    lemma_escaped_safe(encode_utf8(path));
}

proof fn lemma_escaped_safe(bytes: Seq<u8>)
    ensures
        forall|i: int|
            0 <= i < escaped(bytes, path_marks()).len() ==> uri_safe(
                #[trigger] escaped(bytes, path_marks())[i],
            ),
    decreases bytes.len(),
{
    if bytes.len() > 0 {
        let marks = path_marks();
        let b = bytes[0];
        let head = escaped_byte(b, marks);
        let rest = escaped(bytes.skip(1), marks);
        lemma_escaped_safe(bytes.skip(1));
        if marks.contains(b) {
            let k = choose|k: int| 0 <= k < marks.len() && marks[k] == b;
            assert(marks[0] == 47 && marks[1] == 45 && marks[2] == 95 && marks[3] == 46 && marks[4]
                == 126);
            assert(b < 128);
        }
        assert forall|i: int| 0 <= i < escaped(bytes, marks).len() implies uri_safe(
            #[trigger] escaped(bytes, marks)[i],
        ) by {
            if i < head.len() {
                assert(escaped(bytes, marks)[i] == head[i]);
            } else {
                assert(escaped(bytes, marks)[i] == rest[i - head.len()]);
            }
        }
    }
}

/// A path made of letters, digits and the marks of paths is its own URI; any
/// other byte stands there as a percent sign and its two digits in upper-case
/// hexadecimal.
pub proof fn law_bytes_in_a_uri(b: u8)
    ensures
        (48 <= b <= 57 || 65 <= b <= 90 || 97 <= b <= 122 || b == 47 || b == 45 || b == 95 || b == 46
            || b == 126) ==> escaped(seq![b], path_marks()) == seq![b as char],
        !(48 <= b <= 57 || 65 <= b <= 90 || 97 <= b <= 122 || b == 47 || b == 45 || b == 95 || b
            == 46 || b == 126) ==> {
            let e = escaped(seq![b], path_marks());
            &&& e.len() == 3
            &&& e[0] == '%'
            &&& "0123456789ABCDEF"@[b as int / 16] == e[1]
            &&& "0123456789ABCDEF"@[b as int % 16] == e[2]
        },
{
    reveal_strlit("0123456789ABCDEF");
    let marks = path_marks();
    assert(marks[0] == 47 && marks[1] == 45 && marks[2] == 95 && marks[3] == 46 && marks[4] == 126);
    assert(seq![b].skip(1) =~= Seq::empty());
    assert(escaped(Seq::empty(), marks) =~= Seq::empty());
    assert(escaped(seq![b], marks) =~= escaped_byte(b, marks));
}

/// The URI of a path is that of its beginning and that of the rest.
pub proof fn law_escaped_in_order(a: Seq<char>, b: Seq<char>)
    ensures
        escaped_path(a + b) == escaped_path(a) + escaped_path(b),
{
    lemma_encode_concat(a, b);
    lemma_escaped_joined(encode_utf8(a), encode_utf8(b), path_marks());
}

proof fn lemma_escaped_joined(a: Seq<u8>, b: Seq<u8>, keep: Seq<u8>)
    ensures
        escaped(a + b, keep) == escaped(a, keep) + escaped(b, keep),
    decreases a.len(),
{
    if a.len() == 0 {
        assert(a + b =~= b);
        assert(escaped(a, keep) + escaped(b, keep) =~= escaped(b, keep));
    } else {
        assert((a + b)[0] == a[0]);
        assert((a + b).skip(1) =~= a.skip(1) + b);
        lemma_escaped_joined(a.skip(1), b, keep);
        assert(escaped_byte(a[0], keep) + (escaped(a.skip(1), keep) + escaped(b, keep)) =~= (
        escaped_byte(a[0], keep) + escaped(a.skip(1), keep)) + escaped(b, keep));
    }
}

}
