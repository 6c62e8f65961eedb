//! Strings as sequences of characters with byte offsets: the width of a
//! character in UTF-8, splitting a string slice at a character boundary,
//! comparing and building strings.
use vstd::prelude::*;
use vstd::string::StringSliceAdditionalSpecFns;
use vstd::utf8::{encode_scalar, encode_utf8, is_char_boundary, pop_first_scalar};

verus! {

/// The number of bytes that `c` takes in UTF-8.
pub open spec fn utf8_width(c: char) -> int {
    if (c as u32) <= 0x7f {
        1
    } else if (c as u32) <= 0x7ff {
        2
    } else if (c as u32) <= 0xffff {
        3
    } else {
        4
    }
}

/// The number of bytes that `chars` takes in UTF-8.
pub open spec fn byte_len(chars: Seq<char>) -> int
    decreases chars.len(),
{
    if chars.len() == 0 {
        0
    } else {
        byte_len(chars.drop_last()) + utf8_width(chars.last())
    }
}

/// `c` takes one byte in UTF-8.
pub open spec fn is_ascii_char(c: char) -> bool {
    (c as u32) <= 0x7f
}

/// Computes `utf8_width`.
pub fn len_utf8(c: char) -> (w: usize)
    ensures
        w == utf8_width(c),
        1 <= w <= 4,
{
    let code = c as u32;
    if code <= 0x7f {
        1
    } else if code <= 0x7ff {
        2
    } else if code <= 0xffff {
        3
    } else {
        4
    }
}

/// A text takes at least one byte for each character, and at most four.
pub proof fn lemma_byte_len_nonnegative(chars: Seq<char>)
    ensures
        0 <= byte_len(chars),
        chars.len() <= byte_len(chars) <= 4 * chars.len(),
    decreases chars.len(),
{
    if chars.len() > 0 {
        lemma_byte_len_nonnegative(chars.drop_last());
    }
}

/// `byte_len` adds over concatenation.
pub proof fn lemma_byte_len_concat(a: Seq<char>, b: Seq<char>)
    ensures
        byte_len(a + b) == byte_len(a) + byte_len(b),
    decreases b.len(),
{
    if b.len() == 0 {
        assert(a + b =~= a);
    } else {
        assert((a + b).drop_last() =~= a + b.drop_last());
        assert((a + b).last() == b.last());
        lemma_byte_len_concat(a, b.drop_last());
    }
}

/// A longer prefix has at least as many bytes, and one character more adds
/// that character's width.
pub proof fn lemma_byte_len_take(chars: Seq<char>, i: int, j: int)
    requires
        0 <= i <= j <= chars.len(),
    ensures
        byte_len(chars.take(i)) + (j - i) <= byte_len(chars.take(j)),
        j < chars.len() ==> byte_len(chars.take(j + 1)) == byte_len(chars.take(j)) + utf8_width(
            chars[j],
        ),
        byte_len(chars.take(chars.len() as int)) == byte_len(chars),
{
    assert(chars.take(j) =~= chars.take(i) + chars.subrange(i, j));
    lemma_byte_len_concat(chars.take(i), chars.subrange(i, j));
    lemma_byte_len_nonnegative(chars.subrange(i, j));
    if j < chars.len() {
        assert(chars.take(j + 1).drop_last() =~= chars.take(j));
    }
    assert(chars.take(chars.len() as int) =~= chars);
}

/// Where every character is ASCII, bytes and characters count alike.
pub proof fn lemma_byte_len_ascii(chars: Seq<char>)
    requires
        forall|i: int| 0 <= i < chars.len() ==> is_ascii_char(#[trigger] chars[i]),
    ensures
        byte_len(chars) == chars.len(),
    decreases chars.len(),
{
    if chars.len() > 0 {
        lemma_byte_len_ascii(chars.drop_last());
    }
}

proof fn lemma_scalar_width(c: char)
    ensures
        encode_scalar(c as u32).len() == utf8_width(c),
{
    vstd::utf8::char_is_scalar(c);
}

proof fn lemma_encode_concat(a: Seq<char>, b: Seq<char>)
    ensures
        encode_utf8(a + b) == encode_utf8(a) + encode_utf8(b),
    decreases a.len(),
{
    if a.len() == 0 {
        assert(a + b =~= b);
        assert(encode_utf8(a) + encode_utf8(b) =~= encode_utf8(b));
    } else {
        assert((a + b).drop_first() =~= a.drop_first() + b);
        lemma_encode_concat(a.drop_first(), b);
        assert(encode_utf8(a + b) =~= encode_utf8(a) + encode_utf8(b));
    }
}

proof fn lemma_encode_len(chars: Seq<char>)
    ensures
        encode_utf8(chars).len() == byte_len(chars),
    decreases chars.len(),
{
    if chars.len() > 0 {
        let last = seq![chars.last()];
        assert(chars =~= chars.drop_last() + last);
        lemma_encode_concat(chars.drop_last(), last);
        lemma_encode_len(chars.drop_last());
        lemma_scalar_width(chars.last());
        assert(last.drop_first() =~= Seq::<char>::empty());
        assert(encode_utf8(last) =~= encode_scalar(chars.last() as u32)) by {
            reveal_with_fuel(encode_utf8, 2);
        }
    }
}

proof fn lemma_prefix_is_boundary(chars: Seq<char>, k: int)
    requires
        0 <= k <= chars.len(),
    ensures
        is_char_boundary(encode_utf8(chars), byte_len(chars.take(k))),
    decreases chars.len(),
{
    let bytes = encode_utf8(chars);
    vstd::utf8::encode_utf8_valid_utf8(chars);
    if k == 0 {
        assert(chars.take(0) =~= Seq::<char>::empty());
    } else {
        let rest = chars.drop_first();
        let head = seq![chars[0]];
        vstd::utf8::encode_utf8_first_scalar(chars);
        lemma_scalar_width(chars[0]);
        assert(pop_first_scalar(bytes) =~= encode_utf8(rest));
        assert(chars.take(k) =~= head + rest.take(k - 1));
        lemma_byte_len_concat(head, rest.take(k - 1));
        assert(head.drop_last() =~= Seq::<char>::empty());
        assert(byte_len(head) == utf8_width(chars[0])) by {
            reveal_with_fuel(byte_len, 2);
        }
        lemma_byte_len_nonnegative(rest.take(k - 1));
        lemma_prefix_is_boundary(rest, k - 1);
        lemma_encode_len(chars);
        lemma_byte_len_take(chars, k, chars.len() as int);
    }
}

/// Computes the number of bytes in `s`.
pub fn byte_length(s: &str) -> (n: usize)
    ensures
        n == byte_len(s@),
{
    proof {
        lemma_encode_len(s@);
    }
    s.as_bytes().len()
}

/// Computes the first character of `s`, if it has one.
pub fn first_char(s: &str) -> (r: Option<char>)
    ensures
        r == if s@.len() > 0 {
            Some(s@[0])
        } else {
            None::<char>
        },
{
    broadcast use vstd::string::group_string_axioms;

    let mut chars = s.chars();
    chars.next()
}

/// Splits `s` in two at byte `nbytes`, which is where its first `k`
/// characters end.
pub(crate) fn split_at_chars<'a>(s: &'a str, nbytes: usize, Ghost(k): Ghost<int>) -> (parts: (
    &'a str,
    &'a str,
))
    requires
        0 <= k <= s@.len(),
        nbytes == byte_len(s@.take(k)),
    ensures
        parts.0@ == s@.take(k),
        parts.1@ == s@.skip(k),
{
    broadcast use vstd::utf8::encode_utf8_decode_utf8;

    proof {
        lemma_prefix_is_boundary(s@, k);
    }
    let parts = s.split_at(nbytes);
    proof {
        let bytes = s.spec_bytes();
        assert(s@ =~= s@.take(k) + s@.skip(k));
        lemma_encode_concat(s@.take(k), s@.skip(k));
        lemma_encode_len(s@.take(k));
        assert(parts.0.spec_bytes() =~= encode_utf8(s@.take(k)));
        assert(parts.1.spec_bytes() =~= encode_utf8(s@.skip(k)));
        assert(vstd::utf8::decode_utf8(encode_utf8(parts.0@)) == parts.0@);
        assert(vstd::utf8::decode_utf8(encode_utf8(parts.1@)) == parts.1@);
    }
    parts
}

/// Takes `s` apart into its first character and what follows it.
pub fn split_first<'a>(s: &'a str) -> (r: Option<(char, &'a str)>)
    ensures
        s@.len() == 0 ==> r is None,
        s@.len() > 0 ==> (r matches Some((c, rest)) && c == s@[0] && rest@ == s@.drop_first()),
{
    match first_char(s) {
        None => None,
        Some(c) => {
            let width = len_utf8(c);
            proof {
                lemma_byte_len_take(s@, 0, 0);
                assert(s@.take(0) =~= Seq::<char>::empty());
            }
            let (_, rest) = split_at_chars(s, width, Ghost(1));
            assert(s@.skip(1) =~= s@.drop_first());
            Some((c, rest))
        },
    }
}

/// Decides whether two string slices hold the same characters.
pub fn str_eq(a: &str, b: &str) -> (r: bool)
    ensures
        r == (a@ == b@),
{
    let mut x = a;
    let mut y = b;
    loop
        invariant
            (a@ == b@) == (x@ == y@),
        decreases x@.len(),
    {
        match (split_first(x), split_first(y)) {
            (None, None) => {
                assert(x@ =~= y@);
                return true;
            },
            (Some((c, xs)), Some((d, ys))) => {
                if c != d {
                    return false;
                }
                assert(x@ =~= seq![c] + xs@);
                assert(y@ =~= seq![d] + ys@);
                x = xs;
                y = ys;
            },
            _ => {
                return false;
            },
        }
    }
}

/// `String::push` of the standard library: appends `c` to the end of `s`.
#[verifier::external_body]
pub(crate) fn push_char(s: &mut String, c: char)
    ensures
        final(s)@ == old(s)@.push(c),
{
    s.push(c);
}

/// The number of characters of `chars` that start before byte `rel`.
pub open spec fn index_at(chars: Seq<char>, rel: int) -> int
    decreases chars.len(),
{
    if chars.len() == 0 || rel <= 0 {
        0
    } else {
        1 + index_at(chars.drop_first(), rel - utf8_width(chars[0]))
    }
}

/// `index_at` is an index into `chars`, or its length; no further character
/// starts before `rel`.
pub proof fn lemma_index_at(chars: Seq<char>, rel: int)
    ensures
        0 <= index_at(chars, rel) <= chars.len(),
        index_at(chars, rel) < chars.len() ==> rel <= byte_len(chars.take(index_at(chars, rel))),
        forall|i: int| 0 <= i < index_at(chars, rel) ==> byte_len(#[trigger] chars.take(i)) < rel,
    decreases chars.len(),
{
    if chars.len() == 0 || rel <= 0 {
        assert(chars.take(0) =~= Seq::<char>::empty());
    } else {
        let rest = chars.drop_first();
        let head = seq![chars[0]];
        let w = utf8_width(chars[0]);
        lemma_index_at(rest, rel - w);
        assert(head.drop_last() =~= Seq::<char>::empty());
        assert(byte_len(head) == w) by {
            reveal_with_fuel(byte_len, 2);
        }
        let k = index_at(rest, rel - w);
        assert(chars.take(k + 1) =~= head + rest.take(k));
        lemma_byte_len_concat(head, rest.take(k));
        assert forall|i: int| 0 <= i < index_at(chars, rel) implies byte_len(
            #[trigger] chars.take(i),
        ) < rel by {
            if i == 0 {
                assert(chars.take(0) =~= Seq::<char>::empty());
            } else {
                assert(chars.take(i) =~= head + rest.take(i - 1));
                lemma_byte_len_concat(head, rest.take(i - 1));
            }
        }
    }
}

/// The character for a digit below ten.
pub open spec fn digit_char(d: nat) -> char {
    (('0' as u8) + d) as char
}

/// The decimal numeral of `n`, without leading zeros.
pub open spec fn decimal(n: nat) -> Seq<char>
    decreases n,
{
    if n < 10 {
        seq![digit_char(n)]
    } else {
        decimal(n / 10).push(digit_char(n % 10))
    }
}

/// Appends the decimal numeral of `n` to `s`.
pub fn push_decimal(s: &mut String, n: u64)
    ensures
        final(s)@ == old(s)@ + decimal(n as nat),
    decreases n,
{
    if n >= 10 {
        push_decimal(s, n / 10);
    }
    let d: u8 = (n % 10) as u8;
    let c: char = (48u8 + d) as char;
    assert(c == digit_char((n % 10) as nat));
    push_char(s, c);
    assert(s@ =~= old(s)@ + decimal(n as nat));
}

} // verus!
