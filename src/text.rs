//! Byte offsets of characters in UTF-8 text.
use vstd::prelude::*;
use vstd::string::*;
use vstd::utf8::*;

verus! {

/// Number of bytes that the UTF-8 encoding of `cs` takes.
pub open spec fn byte_len(cs: Seq<char>) -> nat {
    encode_utf8(cs).len()
}

/// Whether byte offset `n` of the encoding of `cs` falls between two characters.
pub open spec fn on_char_boundary(cs: Seq<char>, n: int) -> bool {
    exists|j: int| 0 <= j <= cs.len() && #[trigger] byte_len(cs.take(j)) == n
}

/// Encoding a concatenation concatenates the encodings.
pub proof fn lemma_encode_concat(a: Seq<char>, b: Seq<char>)
    ensures
        encode_utf8(a + b) == encode_utf8(a) + encode_utf8(b),
    decreases a.len(),
{
    if a.len() == 0 {
        assert(a + b =~= b);
        assert(encode_utf8(a) + encode_utf8(b) =~= encode_utf8(b));
    } else {
        lemma_encode_concat(a.drop_first(), b);
        assert((a + b).drop_first() =~= a.drop_first() + b);
        assert((a + b)[0] == a[0]);
        assert(encode_utf8(a + b) =~= encode_utf8(a) + encode_utf8(b));
    }
}

/// One to four bytes encode a character, one exactly when it is ASCII.
pub proof fn lemma_scalar_len(c: char)
    ensures
        1 <= encode_scalar(c as u32).len() <= 4,
        encode_scalar(c as u32).len() == 1 <==> (c as u32) < 0x80,
        encode_scalar(c as u32).len() == 1 ==> encode_scalar(c as u32)[0] == (c as u32) as u8,
{
    char_is_scalar(c);
    let v = c as u32;
    if has_width_1_encoding(v) {
        assert((v & 0x7F) as u8 == v as u8) by (bit_vector)
            requires
                v <= 0x7F,
        ;
    }
}

/// Every byte of the encoding of a non-ASCII character is at least 0x80.
proof fn lemma_scalar_high_bytes(c: char)
    requires
        (c as u32) >= 0x80,
    ensures
        forall|i: int|
            0 <= i < encode_scalar(c as u32).len() ==> #[trigger] encode_scalar(c as u32)[i]
                >= 0x80,
{
    let v = c as u32;
    assert(0x80 <= (0xC0 | ((v >> 6) & 0x1F) as u8)) by (bit_vector);
    assert(0x80 <= (0xE0 | ((v >> 12) & 0x0F) as u8)) by (bit_vector);
    assert(0x80 <= (0xF0 | ((v >> 18) & 0x7) as u8)) by (bit_vector);
    assert(0x80 <= (0x80 | (v & 0x3F) as u8)) by (bit_vector);
    assert(0x80 <= (0x80 | ((v >> 6) & 0x3F) as u8)) by (bit_vector);
    assert(0x80 <= (0x80 | ((v >> 12) & 0x3F) as u8)) by (bit_vector);
}

/// The encoding of the first `j + 1` characters extends that of the first `j`
/// by the encoding of character `j`.
pub proof fn lemma_take_step(cs: Seq<char>, j: int)
    requires
        0 <= j < cs.len(),
    ensures
        encode_utf8(cs.take(j + 1)) == encode_utf8(cs.take(j)) + encode_scalar(cs[j] as u32),
        byte_len(cs.take(j + 1)) == byte_len(cs.take(j)) + encode_scalar(cs[j] as u32).len(),
{
    let one = seq![cs[j]];
    assert(cs.take(j + 1) =~= cs.take(j) + one);
    lemma_encode_concat(cs.take(j), one);
    assert(one.drop_first() =~= Seq::<char>::empty());
    assert(encode_utf8(one.drop_first()) =~= Seq::<u8>::empty());
    assert(encode_utf8(one) == encode_scalar(one[0] as u32) + encode_utf8(one.drop_first()));
    assert(encode_utf8(one) =~= encode_scalar(cs[j] as u32));
}

/// The encoding splits at the encoding of any prefix.
pub proof fn lemma_take_skip(cs: Seq<char>, j: int)
    requires
        0 <= j <= cs.len(),
    ensures
        encode_utf8(cs) == encode_utf8(cs.take(j)) + encode_utf8(cs.skip(j)),
        byte_len(cs) == byte_len(cs.take(j)) + byte_len(cs.skip(j)),
{
    assert(cs =~= cs.take(j) + cs.skip(j));
    lemma_encode_concat(cs.take(j), cs.skip(j));
}

/// An ASCII byte of the encoding is the encoding of a whole character.
pub proof fn lemma_ascii_byte(cs: Seq<char>, p: int)
    requires
        0 <= p < byte_len(cs),
        encode_utf8(cs)[p] < 0x80,
    ensures
        exists|j: int|
            0 <= j < cs.len() && #[trigger] byte_len(cs.take(j)) == p && byte_len(cs.take(j + 1))
                == p + 1,
    decreases cs.len(),
{
    let c = cs[0];
    let rest = cs.drop_first();
    let w = encode_scalar(c as u32).len() as int;
    lemma_scalar_len(c);
    assert(encode_utf8(cs) == encode_scalar(c as u32) + encode_utf8(rest));
    lemma_take_step(cs, 0);
    assert(cs.take(0) =~= Seq::<char>::empty());
    if p < w {
        if (c as u32) >= 0x80 {
            lemma_scalar_high_bytes(c);
            assert(encode_utf8(cs)[p] == encode_scalar(c as u32)[p]);
        }
        assert(byte_len(cs.take(0)) == p);
    } else {
        assert(encode_utf8(cs)[p] == encode_utf8(rest)[p - w]);
        lemma_ascii_byte(rest, p - w);
        let k = choose|k: int|
            0 <= k < rest.len() && #[trigger] byte_len(rest.take(k)) == p - w && byte_len(
                rest.take(k + 1),
            ) == p - w + 1;
        lemma_prefix_after_first(cs, k);
        lemma_prefix_after_first(cs, k + 1);
        assert(byte_len(cs.take(k + 1)) == p);
    }
}

/// The encoding of the first `k + 1` characters is that of the first one
/// followed by that of the next `k`.
proof fn lemma_prefix_after_first(cs: Seq<char>, k: int)
    requires
        0 <= k < cs.len(),
    ensures
        byte_len(cs.take(k + 1)) == encode_scalar(cs[0] as u32).len() + byte_len(
            cs.drop_first().take(k),
        ),
{
    let t = cs.take(k + 1);
    assert(t.drop_first() =~= cs.drop_first().take(k));
    assert(t[0] == cs[0]);
    assert(encode_utf8(t) == encode_scalar(t[0] as u32) + encode_utf8(t.drop_first()));
}

/// The end of the encoding of every prefix is a character boundary.
pub proof fn lemma_prefix_boundary(cs: Seq<char>, j: int)
    requires
        0 <= j <= cs.len(),
    ensures
        is_char_boundary(encode_utf8(cs), byte_len(cs.take(j)) as int),
    decreases cs.len(),
{
    let b = encode_utf8(cs);
    encode_utf8_valid_utf8(cs);
    if j == 0 {
        assert(cs.take(0) =~= Seq::<char>::empty());
    } else {
        let rest = cs.drop_first();
        encode_utf8_first_scalar(cs);
        lemma_scalar_len(cs[0]);
        assert(pop_first_scalar(b) =~= encode_utf8(rest));
        lemma_prefix_after_first(cs, j - 1);
        lemma_prefix_boundary(rest, j - 1);
        lemma_take_skip(cs, j);
    }
}

/// Byte offset `n` of the encoding of `cs` is a character boundary when it
/// follows an ASCII byte.
pub proof fn lemma_after_ascii_byte(cs: Seq<char>, n: int)
    requires
        0 < n <= byte_len(cs),
        encode_utf8(cs)[n - 1] < 0x80,
    ensures
        on_char_boundary(cs, n),
{
    lemma_ascii_byte(cs, n - 1);
    let j = choose|j: int|
        0 <= j < cs.len() && #[trigger] byte_len(cs.take(j)) == n - 1 && byte_len(cs.take(j + 1))
            == n;
    assert(byte_len(cs.take(j + 1)) == n);
}

/// Byte offset `n` of the encoding of `cs` is a character boundary when it
/// holds an ASCII byte.
pub proof fn lemma_at_ascii_byte(cs: Seq<char>, n: int)
    requires
        0 <= n < byte_len(cs),
        encode_utf8(cs)[n] < 0x80,
    ensures
        on_char_boundary(cs, n),
{
    lemma_ascii_byte(cs, n);
}

/// Number of bytes that the UTF-8 encoding of `c` takes.
pub fn utf8_width(c: char) -> (n: usize)
    ensures
        n == encode_scalar(c as u32).len(),
{
    proof {
        char_is_scalar(c);
    }
    let v = c as u32;
    if v < 0x80 {
        1
    } else if v < 0x800 {
        2
    } else if v < 0x10000 {
        3
    } else {
        4
    }
}

/// Splitting the encoding of `cs` at a character boundary leaves the
/// encoding of the characters after it.
proof fn lemma_suffix_at_boundary(cs: Seq<char>, j: int)
    requires
        0 <= j <= cs.len(),
    ensures
        encode_utf8(cs).subrange(byte_len(cs.take(j)) as int, byte_len(cs) as int) == encode_utf8(
            cs.skip(j),
        ),
{
    lemma_take_skip(cs, j);
    assert(encode_utf8(cs).subrange(byte_len(cs.take(j)) as int, byte_len(cs) as int)
        =~= encode_utf8(cs.skip(j)));
}

/// The part of `s` between byte offsets `start` and `end`, both on character
/// boundaries.
pub fn substring(s: &str, start: usize, end: usize) -> (r: &str)
    requires
        start <= end,
        on_char_boundary(s@, start as int),
        on_char_boundary(s@, end as int),
    ensures
        r.spec_bytes() == s.spec_bytes().subrange(start as int, end as int),
        r@ == decode_utf8(s.spec_bytes().subrange(start as int, end as int)),
{
    let ghost cs = s@;
    let ghost j1 = choose|j: int| 0 <= j <= cs.len() && #[trigger] byte_len(cs.take(j)) == start;
    let ghost j2 = choose|j: int| 0 <= j <= cs.len() && #[trigger] byte_len(cs.take(j)) == end;
    proof {
        lemma_prefix_boundary(cs, j1);
        lemma_suffix_at_boundary(cs, j1);
        lemma_take_skip(cs, j1);
    }
    let (_, tail) = s.split_at(start);
    proof {
        encode_utf8_decode_utf8(tail@);
        encode_utf8_decode_utf8(cs.skip(j1));
        assert(tail@ == cs.skip(j1));
        if j2 < j1 {
            lemma_take_skip(cs.take(j1), j2);
            assert(cs.take(j1).take(j2) =~= cs.take(j2));
            assert(byte_len(cs.take(j1).skip(j2)) > 0) by {
                lemma_take_step(cs.take(j1).skip(j2), 0);
                lemma_scalar_len(cs.take(j1).skip(j2)[0]);
            }
        }
        let t = cs.skip(j1);
        assert(cs.take(j2) =~= cs.take(j1) + t.take(j2 - j1));
        lemma_encode_concat(cs.take(j1), t.take(j2 - j1));
        lemma_prefix_boundary(t, j2 - j1);
    }
    let (r, _) = tail.split_at(end - start);
    proof {
        lemma_take_skip(cs, j2);
        assert(r.spec_bytes() =~= s.spec_bytes().subrange(start as int, end as int));
        encode_utf8_decode_utf8(r@);
    }
    r
}

} // verus!
