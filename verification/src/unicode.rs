//! Byte-offset arithmetic for text handled as a character sequence.
//!
//! Reference spans are reported as byte offsets into the UTF-8 encoding of the
//! source text, while parsing itself walks characters. This module relates the
//! two: `utf8_len` gives the byte length of a character prefix, and
//! `byte_offsets` computes every character boundary's byte offset.

use vstd::prelude::*;

verus! {

use vstd::utf8::{encode_utf8, encode_scalar, char_is_scalar, is_scalar};
use vstd::string::StrSliceExecFns;

/// Byte length of the UTF-8 encoding of the characters `s`.
pub open spec fn utf8_len(s: Seq<char>) -> nat {
    encode_utf8(s).len()
}

/// UTF-8 encodes each character independently, so encoding distributes over
/// concatenation.
pub proof fn lemma_encode_utf8_concat(a: Seq<char>, b: Seq<char>)
    ensures
        encode_utf8(a + b) == encode_utf8(a) + encode_utf8(b),
    decreases a.len(),
{
    if a.len() == 0 {
        assert(a + b =~= b);
        assert(encode_utf8(a) + encode_utf8(b) =~= encode_utf8(b));
    } else {
        assert((a + b).drop_first() =~= a.drop_first() + b);
        lemma_encode_utf8_concat(a.drop_first(), b);
        assert((a + b)[0] == a[0]);
        assert(encode_utf8(a + b) =~= encode_utf8(a) + encode_utf8(b));
    }
}

/// Extending a character prefix by one character extends its byte length by
/// that character's encoded width.
pub proof fn lemma_utf8_len_take_succ(s: Seq<char>, i: int)
    requires
        0 <= i < s.len(),
    ensures
        utf8_len(s.take(i + 1)) == utf8_len(s.take(i)) + encode_scalar(s[i] as u32).len(),
{
    assert(s.take(i + 1) =~= s.take(i) + seq![s[i]]);
    lemma_encode_utf8_concat(s.take(i), seq![s[i]]);
    reveal_with_fuel(encode_utf8, 2);
    assert(seq![s[i]].drop_first() =~= Seq::<char>::empty());
    assert(seq![s[i]][0] == s[i]);
    assert(encode_utf8(seq![s[i]]) =~= encode_scalar(s[i] as u32));
}

/// Byte lengths of character prefixes grow strictly with the prefix.
pub proof fn lemma_utf8_len_take_mono(s: Seq<char>, i: int, j: int)
    requires
        0 <= i <= j <= s.len(),
    ensures
        utf8_len(s.take(i)) <= utf8_len(s.take(j)),
        i < j ==> utf8_len(s.take(i)) < utf8_len(s.take(j)),
    decreases j - i,
{
    if i < j {
        lemma_utf8_len_take_succ(s, j - 1);
        lemma_utf8_len_take_mono(s, i, j - 1);
        assert(encode_scalar(s[j - 1] as u32).len() >= 1);
    }
}

/// The bytes of a character subrange are the byte subrange between the
/// corresponding boundaries.
pub proof fn lemma_encode_utf8_subrange(s: Seq<char>, i: int, j: int)
    requires
        0 <= i <= j <= s.len(),
    ensures
        utf8_len(s.take(j)) <= utf8_len(s),
        encode_utf8(s.subrange(i, j)) == encode_utf8(s).subrange(
            utf8_len(s.take(i)) as int,
            utf8_len(s.take(j)) as int,
        ),
{
    let a = s.take(i);
    let b = s.subrange(i, j);
    let c = s.skip(j);
    assert(s =~= (a + b) + c);
    assert(s.take(j) =~= a + b);
    lemma_encode_utf8_concat(a + b, c);
    lemma_encode_utf8_concat(a, b);
    let ea = encode_utf8(a);
    let eb = encode_utf8(b);
    assert(encode_utf8(s.subrange(i, j)) =~= encode_utf8(s).subrange(
        ea.len() as int,
        (ea.len() + eb.len()) as int,
    ));
}

/// Width in bytes of one character's UTF-8 encoding.
pub fn char_utf8_width(c: char) -> (w: usize)
    ensures
        w == encode_scalar(c as u32).len(),
{
    let u = c as u32;
    proof {
        char_is_scalar(c);
    }
    if u < 0x80 {
        1
    } else if u < 0x800 {
        2
    } else if u < 0x10000 {
        3
    } else {
        4
    }
}

/// The characters of `s`, collected into a vector.
pub fn chars_vec(s: &str) -> (v: Vec<char>)
    ensures
        v@ == s@,
{
    let n = s.unicode_len();
    let mut v: Vec<char> = Vec::new();
    let mut i: usize = 0;
    while i < n
        invariant
            i <= n,
            n == s@.len(),
            v@ == s@.take(i as int),
        decreases n - i,
    {
        let c = s.get_char(i);
        v.push(c);
        proof {
            assert(v@ =~= s@.take(i + 1 as int));
        }
        i = i + 1;
    }
    proof {
        assert(s@.take(n as int) =~= s@);
    }
    v
}

/// Byte offset of every character boundary of `s`: `r[i]` is the byte length
/// of the first `i` characters; `r[s@.len()]` is the total byte length.
pub fn byte_offsets(s: &str, chars: &Vec<char>) -> (r: Vec<usize>)
    requires
        chars@ == s@,
    ensures
        r@.len() == s@.len() + 1,
        forall|i: int| 0 <= i <= s@.len() ==> #[trigger] r@[i] == utf8_len(s@.take(i)),
{
    let total: usize = s.as_bytes().len();
    proof {
        assert(s@.take(s@.len() as int) =~= s@);
        assert(s@.take(0) =~= Seq::<char>::empty());
    }
    let n = chars.len();
    let mut r: Vec<usize> = Vec::new();
    r.push(0);
    let mut i: usize = 0;
    while i < n
        invariant
            i <= n,
            n == s@.len(),
            chars@ == s@,
            r@.len() == i + 1,
            total == utf8_len(s@),
            forall|j: int| 0 <= j <= i ==> #[trigger] r@[j] == utf8_len(s@.take(j)),
        decreases n - i,
    {
        let w = char_utf8_width(chars[i]);
        proof {
            lemma_utf8_len_take_succ(s@, i as int);
            lemma_utf8_len_take_mono(s@, i + 1 as int, s@.len() as int);
            assert(s@.take(s@.len() as int) =~= s@);
        }
        let last = r[i];
        r.push(last + w);
        i = i + 1;
    }
    r
}

} // verus!
