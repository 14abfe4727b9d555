use crate::text::{
    byte_len, lemma_after_ascii_byte, lemma_at_ascii_byte, lemma_encode_concat,
    lemma_prefix_boundary, lemma_scalar_len, lemma_take_skip, lemma_take_step, on_char_boundary,
    utf8_width,
};
use aho_corasick::AhoCorasick;
use vstd::prelude::*;
use vstd::string::*;
use vstd::utf8::*;

verus! {

/// How a character may take part in a URL.
#[derive(Clone, Copy, Debug, PartialEq, Eq, Structural)]
pub enum Char {
    /// Ends the URL: it cannot occur in one.
    Invalid,
    /// May be the last character of a URL.
    Term,
    /// May occur inside a URL, but never ends one.
    NonTerm,
}

/// Whether `c` is one of the reserved or percent characters that a URL may
/// hold but that are not trusted as its last character.
pub open spec fn is_non_term_punct(c: char) -> bool {
    c == '.' || c == ':' || c == '?' || c == '#' || c == '[' || c == ']' || c == '@'
        || c == '!' || c == '$' || c == '&' || c == '\'' || c == '(' || c == ')' || c == '*'
        || c == '+' || c == ',' || c == ';' || c == '%'
}

/// Whether `c` is one of the symbols that a URL may end with.
pub open spec fn is_term_punct(c: char) -> bool {
    c == '-' || c == '_' || c == '~' || c == '/' || c == '='
}

/// The class of `c`, given whether it is alphanumeric.
pub open spec fn kind_from(c: char, alphanumeric: bool) -> Char {
    if alphanumeric {
        Char::Term
    } else if is_non_term_punct(c) {
        Char::NonTerm
    } else if is_term_punct(c) {
        Char::Term
    } else {
        Char::Invalid
    }
}

/// Classifies `c` given whether it is alphanumeric.
pub fn classify_char(c: char, alphanumeric: bool) -> (r: Char)
    ensures
        r == kind_from(c, alphanumeric),
{
    if alphanumeric {
        Char::Term
    } else {
        match c {
            '.' | ':' | '?' | '#' | '[' | ']' | '@' | '!' | '$' | '&' | '\'' | '(' | ')' | '*'
            | '+' | ',' | ';' | '%' => Char::NonTerm,
            '-' | '_' | '~' | '/' | '=' => Char::Term,
            _ => Char::Invalid,
        }
    }
}

/// Whether `c` is alphanumeric, as `char::is_alphanumeric` decides by the
/// Unicode `Alphabetic` and `Numeric` properties.
pub uninterp spec fn char_is_alphanumeric(c: char) -> bool;

/// Relies on `char::is_alphanumeric`, whose result depends on `c` alone.
#[verifier::external_body]
fn is_alphanumeric(c: char) -> (r: bool)
    ensures
        r == char_is_alphanumeric(c),
{
    c.is_alphanumeric()
}

/// The class of `c` in a URL.
pub open spec fn char_kind(c: char) -> Char {
    kind_from(c, char_is_alphanumeric(c))
}

/// Classifies `c`: alphanumerics and `- _ ~ / =` may end a URL, the other
/// reserved characters and `%` may only occur inside one, and anything else
/// ends it.
pub fn url_char_kind(c: char) -> (r: Char)
    ensures
        r == char_kind(c),
{
    classify_char(c, is_alphanumeric(c))
}

/// Walks `cs` from index `i`, where `best` is the index just past the last
/// terminal character seen so far. The walk stops at the first invalid
/// character, and gives the last such index.
pub open spec fn url_end_from(cs: Seq<char>, i: int, best: int) -> int
    decreases cs.len() - i,
{
    if i < 0 || i >= cs.len() {
        best
    } else {
        match char_kind(cs[i]) {
            Char::Invalid => best,
            Char::Term => url_end_from(cs, i + 1, i + 1),
            Char::NonTerm => url_end_from(cs, i + 1, best),
        }
    }
}

/// Number of characters at the start of `cs` that a URL body takes: up to
/// the last terminal character before the first invalid one.
pub open spec fn url_body_len(cs: Seq<char>) -> int {
    url_end_from(cs, 0, 0)
}

/// The walk ends between `best` and the end of `cs`.
proof fn lemma_url_end_bounds(cs: Seq<char>, i: int, best: int)
    requires
        0 <= best <= i <= cs.len(),
    ensures
        best <= url_end_from(cs, i, best) <= cs.len(),
    decreases cs.len() - i,
{
    if i < cs.len() {
        lemma_url_end_bounds(cs, i + 1, best);
        lemma_url_end_bounds(cs, i + 1, i + 1);
    }
}

/// Number of bytes that the URL body at the start of `s` takes.
fn url_body_bytes(s: &str) -> (n: usize)
    ensures
        n == byte_len(s@.take(url_body_len(s@))),
        n == 0 <==> url_body_len(s@) == 0,
{
    let ghost cs = s@;
    let mut pos: usize = 0;
    let mut best: usize = 0;
    let ghost mut i: int = 0;
    let ghost mut best_c: int = 0;
    let total = s.as_bytes().len();
    let mut chars = s.chars();
    proof {
        assert(cs.take(0) =~= Seq::<char>::empty());
        lemma_take_skip(cs, 0);
    }
    loop
        invariant_except_break
            0 <= best_c <= i <= cs.len(),
            vstd::std_specs::iter::IteratorSpec::remaining(&chars) == cs.skip(i),
            pos == byte_len(cs.take(i)),
            best == byte_len(cs.take(best_c)),
            best_c == 0 <==> best == 0,
            url_body_len(cs) == url_end_from(cs, i, best_c),
            byte_len(cs) == total,
        ensures
            best == byte_len(cs.take(url_body_len(cs))),
            best == 0 <==> url_body_len(cs) == 0,
        decreases cs.len() - i,
    {
        let next = chars.next();
        match next {
            None => {
                break;
            },
            Some(c) => {
                proof {
                    lemma_take_step(cs, i);
                    lemma_scalar_len(c);
                    lemma_take_skip(cs, i + 1);
                }
                let w = utf8_width(c);
                match url_char_kind(c) {
                    Char::Invalid => {
                        break;
                    },
                    Char::Term => {
                        pos = pos + w;
                        best = pos;
                        proof {
                            best_c = i + 1;
                        }
                    },
                    Char::NonTerm => {
                        pos = pos + w;
                    },
                }
                proof {
                    i = i + 1;
                }
            },
        }
    }
    best
}

/// Whether pattern `p` occurs in `h` at offset `i`.
pub open spec fn occurs_at(h: Seq<u8>, i: int, p: Seq<u8>) -> bool {
    0 <= i && i + p.len() <= h.len() && h.subrange(i, i + p.len()) == p
}

/// Length of the first of `ps` that occurs in `h` at offset `i`, if any.
pub open spec fn pattern_at(h: Seq<u8>, ps: Seq<Seq<u8>>, i: int) -> Option<int>
    decreases ps.len(),
{
    if ps.len() == 0 {
        None
    } else if occurs_at(h, i, ps[0]) {
        Some(ps[0].len() as int)
    } else {
        pattern_at(h, ps.drop_first(), i)
    }
}

/// Every occurrence of one of `ps` in `h` that starts at offset `i` or
/// later, as `(start, end)` in order of position.
pub open spec fn occurrences_from(h: Seq<u8>, ps: Seq<Seq<u8>>, i: int) -> Seq<(int, int)>
    decreases h.len() - i,
{
    if i < 0 || i >= h.len() {
        seq![]
    } else {
        match pattern_at(h, ps, i) {
            Some(n) => seq![(i, i + n)] + occurrences_from(h, ps, i + 1),
            None => occurrences_from(h, ps, i + 1),
        }
    }
}

/// The patterns are not empty and no two occurrences of them in `h` overlap.
pub open spec fn occurrences_disjoint(h: Seq<u8>, ps: Seq<Seq<u8>>) -> bool {
    &&& forall|a: int| 0 <= a < ps.len() ==> #[trigger] ps[a].len() > 0
    &&& forall|i: int, j: int, a: int, b: int|
        0 <= a < ps.len() && 0 <= b < ps.len() && #[trigger] occurs_at(h, i, ps[a])
            && #[trigger] occurs_at(h, j, ps[b]) && i <= j && (i != j || a != b) ==> i
            + ps[a].len() <= j
}

/// The bytes of each pattern.
pub open spec fn pattern_bytes(ps: Seq<&str>) -> Seq<Seq<u8>> {
    ps.map_values(|p: &str| p.spec_bytes())
}

/// Pairs of offsets as integers.
pub open spec fn pairs_view(v: Seq<(usize, usize)>) -> Seq<(int, int)> {
    v.map_values(|p: (usize, usize)| (p.0 as int, p.1 as int))
}

/// Relies on `aho_corasick::AhoCorasick::new` and `AhoCorasick::find_iter`
/// (standard match semantics, non-overlapping matches, byte offsets): where
/// no two occurrences of the patterns overlap, each is reported, in order of
/// position.
#[verifier::external_body]
fn find_literals(patterns: &[&str], haystack: &str) -> (r: Vec<(usize, usize)>)
    requires
        occurrences_disjoint(haystack.spec_bytes(), pattern_bytes(patterns@)),
    ensures
        pairs_view(r@) == occurrences_from(haystack.spec_bytes(), pattern_bytes(patterns@), 0),
{
    AhoCorasick::new(patterns).find_iter(haystack).map(|m| (m.start(), m.end())).collect()
}

/// The bytes of `https://`.
pub open spec fn https_bytes() -> Seq<u8> {
    seq![104u8, 116u8, 116u8, 112u8, 115u8, 58u8, 47u8, 47u8]
}

/// The bytes of `http://`.
pub open spec fn http_bytes() -> Seq<u8> {
    seq![104u8, 116u8, 116u8, 112u8, 58u8, 47u8, 47u8]
}

/// The scheme prefixes that start a URL.
pub open spec fn schemes() -> Seq<Seq<u8>> {
    seq![https_bytes(), http_bytes()]
}

/// Two occurrences of the scheme prefixes never overlap: `h` occurs in
/// each only at its start, and the two differ in their fifth byte.
proof fn lemma_schemes_disjoint(h: Seq<u8>)
    ensures
        occurrences_disjoint(h, schemes()),
{
    let ps = schemes();
    assert forall|i: int, j: int, a: int, b: int|
        0 <= a < ps.len() && 0 <= b < ps.len() && #[trigger] occurs_at(h, i, ps[a])
            && #[trigger] occurs_at(h, j, ps[b]) && i <= j && (i != j || a != b) implies i
        + ps[a].len() <= j by {
        if j < i + ps[a].len() {
            assert(h.subrange(j, j + ps[b].len())[0] == h[j]);
            assert(h.subrange(i, i + ps[a].len())[j - i] == h[j]);
            assert(ps[b][0] == 104u8);
            if i == j {
                assert(h.subrange(j, j + ps[b].len())[4] == h[j + 4]);
                assert(h.subrange(i, i + ps[a].len())[4] == h[i + 4]);
                assert(a != b);
            }
        }
    }
}

/// Every reported occurrence is one of the patterns at its start.
proof fn lemma_occurrences_sound(h: Seq<u8>, ps: Seq<Seq<u8>>, i: int)
    ensures
        forall|k: int|
            0 <= k < occurrences_from(h, ps, i).len() ==> {
                let m = #[trigger] occurrences_from(h, ps, i)[k];
                exists|a: int|
                    0 <= a < ps.len() && occurs_at(h, m.0, ps[a]) && m.1 == m.0 + ps[a].len()
            },
    decreases h.len() - i,
{
    if i < 0 || i >= h.len() {
    } else {
        lemma_occurrences_sound(h, ps, i + 1);
        lemma_pattern_at_sound(h, ps, i);
        let rest = occurrences_from(h, ps, i + 1);
        match pattern_at(h, ps, i) {
            Some(n) => {
                assert forall|k: int|
                    0 <= k < occurrences_from(h, ps, i).len() implies {
                    let m = #[trigger] occurrences_from(h, ps, i)[k];
                    exists|a: int|
                        0 <= a < ps.len() && occurs_at(h, m.0, ps[a]) && m.1 == m.0 + ps[a].len()
                } by {
                    if k > 0 {
                        assert(occurrences_from(h, ps, i)[k] == rest[k - 1]);
                    }
                }
            },
            None => {},
        }
    }
}

/// The pattern reported at an offset occurs there.
proof fn lemma_pattern_at_sound(h: Seq<u8>, ps: Seq<Seq<u8>>, i: int)
    ensures
        pattern_at(h, ps, i) matches Some(n) ==> exists|a: int|
            0 <= a < ps.len() && occurs_at(h, i, ps[a]) && n == ps[a].len(),
    decreases ps.len(),
{
    if ps.len() > 0 && !occurs_at(h, i, ps[0]) {
        lemma_pattern_at_sound(h, ps.drop_first(), i);
        if let Some(n) = pattern_at(h, ps, i) {
            let a = choose|a: int|
                0 <= a < ps.drop_first().len() && occurs_at(h, i, ps.drop_first()[a]) && n
                    == ps.drop_first()[a].len();
            assert(ps[a + 1] == ps.drop_first()[a]);
        }
    }
}

/// The scheme prefixes, as text.
fn scheme_patterns() -> (r: Vec<&'static str>)
    ensures
        pattern_bytes(r@) == schemes(),
{
    let r: Vec<&'static str> = vec!["https://", "http://"];
    proof {
        reveal_strlit("https://");
        reveal_strlit("http://");
        broadcast use is_ascii_spec_bytes;

        assert(is_ascii(r@[0]));
        assert(is_ascii(r@[1]));
        assert(r@[0].spec_bytes() =~= https_bytes());
        assert(r@[1].spec_bytes() =~= http_bytes());
        assert(pattern_bytes(r@) =~= schemes());
    }
    r
}

/// End of the URL whose scheme prefix ends at byte `from` of `b`, if the
/// text after the prefix starts with a URL body.
pub open spec fn url_end(b: Seq<u8>, from: int) -> Option<int> {
    let cs = decode_utf8(b.subrange(from, b.len() as int));
    let k = url_body_len(cs);
    if k == 0 {
        None
    } else {
        Some(from + byte_len(cs.take(k)))
    }
}

/// The URL spans that start at the scheme matches `ms` of `b`, where the
/// last URL found ends at `last_end`: a match that starts inside a URL
/// already found is passed over.
pub open spec fn spans_from(b: Seq<u8>, ms: Seq<(int, int)>, last_end: int) -> Seq<(int, int)>
    decreases ms.len(),
{
    if ms.len() == 0 {
        seq![]
    } else if ms[0].0 < last_end {
        spans_from(b, ms.drop_first(), last_end)
    } else {
        match url_end(b, ms[0].1) {
            Some(e) => seq![(ms[0].0, e)] + spans_from(b, ms.drop_first(), e),
            None => spans_from(b, ms.drop_first(), last_end),
        }
    }
}

/// The URL spans, as byte offsets `(start, end)`, of text whose UTF-8
/// encoding is `b`.
pub open spec fn url_spans(b: Seq<u8>) -> Seq<(int, int)> {
    spans_from(b, occurrences_from(b, schemes(), 0), 0)
}

/// The spans are not empty, lie within text `cs` on character boundaries,
/// and come in ascending order without overlapping.
pub open spec fn spans_well_formed(cs: Seq<char>, sp: Seq<(int, int)>) -> bool {
    &&& forall|k: int|
        0 <= k < sp.len() ==> {
            &&& 0 <= (#[trigger] sp[k]).0 < sp[k].1 <= byte_len(cs)
            &&& on_char_boundary(cs, sp[k].0)
            &&& on_char_boundary(cs, sp[k].1)
        }
    &&& forall|k: int| 0 <= k < sp.len() - 1 ==> (#[trigger] sp[k]).1 <= sp[k + 1].0
}

/// Number of bytes that the URL body after byte `from` of `content` takes,
/// where the byte before `from` is ASCII.
fn url_body_after(content: &str, from: usize) -> (n: usize)
    requires
        0 < from <= content.spec_bytes().len(),
        content.spec_bytes()[from - 1] < 0x80,
    ensures
        n == 0 <==> url_end(content.spec_bytes(), from as int) is None,
        n > 0 ==> url_end(content.spec_bytes(), from as int) == Some((from + n) as int),
        from + n <= content.spec_bytes().len(),
        n > 0 ==> on_char_boundary(content@, from + n),
{
    let ghost b = content.spec_bytes();
    let ghost cs = content@;
    proof {
        lemma_after_ascii_byte(cs, from as int);
    }
    let ghost j = choose|j: int| 0 <= j <= cs.len() && #[trigger] byte_len(cs.take(j)) == from;
    proof {
        lemma_prefix_boundary(cs, j);
        lemma_take_skip(cs, j);
        assert(b.subrange(from as int, b.len() as int) =~= encode_utf8(cs.skip(j)));
    }
    let (_, rest) = content.split_at(from);
    proof {
        assert(rest.spec_bytes() == encode_utf8(cs.skip(j)));
        encode_utf8_decode_utf8(rest@);
        encode_utf8_decode_utf8(cs.skip(j));
        assert(rest@ == cs.skip(j));
        lemma_url_end_bounds(rest@, 0, 0);
        lemma_take_skip(rest@, url_body_len(rest@));
    }
    let n = url_body_bytes(rest);
    proof {
        if n > 0 {
            let kk = url_body_len(rest@);
            assert(cs.take(j + kk) =~= cs.take(j) + cs.skip(j).take(kk));
            lemma_encode_concat(cs.take(j), cs.skip(j).take(kk));
            assert(byte_len(cs.take(j + kk)) == from + n);
        }
    }
    n
}

/// A scheme match starts with `h` and ends with `/`.
proof fn lemma_match_bytes(b: Seq<u8>, m: (int, int))
    requires
        exists|a: int|
            0 <= a < schemes().len() && occurs_at(b, m.0, schemes()[a]) && m.1 == m.0 + schemes()[a].len(),
    ensures
        0 <= m.0 < m.1 <= b.len(),
        b[m.0] == 104u8,
        b[m.1 - 1] == 47u8,
{
    let a = choose|a: int|
        0 <= a < schemes().len() && occurs_at(b, m.0, schemes()[a]) && m.1 == m.0
            + schemes()[a].len();
    assert(b.subrange(m.0, m.1)[0] == b[m.0]);
    assert(b.subrange(m.0, m.1)[m.1 - m.0 - 1] == b[m.1 - 1]);
}

/// Finds the URLs in `content`: each starts at an `http://` or `https://`
/// prefix and runs to the last terminal character before the first invalid
/// one. A prefix followed by no URL body is passed over, and so is a prefix
/// that stands inside a URL found before it.
pub fn find_all_urls(content: &str) -> (r: Vec<(usize, usize)>)
    ensures
        pairs_view(r@) == url_spans(content.spec_bytes()),
        spans_well_formed(content@, pairs_view(r@)),
{
    let ghost b = content.spec_bytes();
    let ghost cs = content@;
    let patterns = scheme_patterns();
    proof {
        lemma_schemes_disjoint(b);
        lemma_occurrences_sound(b, schemes(), 0);
    }
    let ms = find_literals(patterns.as_slice(), content);
    let ghost msv = pairs_view(ms@);
    let total = content.as_bytes().len();
    let mut out: Vec<(usize, usize)> = Vec::new();
    let mut last_end: usize = 0;
    let mut k: usize = 0;
    proof {
        assert(msv.skip(0) =~= msv);
        assert(pairs_view(out@) =~= Seq::<(int, int)>::empty());
        assert(pairs_view(out@) + msv =~= msv);
    }
    while k < ms.len()
        invariant
            b == content.spec_bytes(),
            cs == content@,
            b == encode_utf8(cs),
            total == b.len(),
            msv == pairs_view(ms@),
            forall|i: int|
                0 <= i < msv.len() ==> {
                    let m = #[trigger] msv[i];
                    exists|a: int|
                        0 <= a < schemes().len() && occurs_at(b, m.0, schemes()[a]) && m.1 == m.0
                            + schemes()[a].len()
                },
            k <= ms.len(),
            pairs_view(out@) + spans_from(b, msv.skip(k as int), last_end as int) == url_spans(b),
            spans_well_formed(cs, pairs_view(out@)),
            out.len() > 0 ==> out@.last().1 == last_end,
            last_end <= b.len(),
        decreases ms.len() - k,
    {
        let (s, e) = ms[k];
        let ghost m = msv[k as int];
        let ghost old_out = pairs_view(out@);
        proof {
            assert(m == (s as int, e as int));
            assert(msv.skip(k as int)[0] == m);
            assert(msv.skip(k as int).drop_first() =~= msv.skip(k + 1));
            lemma_match_bytes(b, m);
        }
        if s >= last_end {
            let n = url_body_after(content, e);
            if n > 0 {
                let end = e + n;
                proof {
                    lemma_at_ascii_byte(cs, s as int);
                }
                out.push((s, end));
                last_end = end;
                proof {
                    assert(pairs_view(out@) =~= old_out + seq![(s as int, end as int)]);
                    assert(old_out + seq![(s as int, end as int)] + spans_from(
                        b,
                        msv.skip(k + 1),
                        end as int,
                    ) =~= old_out + (seq![(s as int, end as int)] + spans_from(
                        b,
                        msv.skip(k + 1),
                        end as int,
                    )));
                }
            }
        }
        k += 1;
    }
    proof {
        assert(msv.skip(k as int) =~= Seq::<(int, int)>::empty());
        assert(pairs_view(out@) + seq![] =~= pairs_view(out@));
    }
    out
}

} // verus!
