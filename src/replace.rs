//! Rewriting text by putting new text in place of byte ranges.
use vstd::prelude::*;
use vstd::slice::slice_subrange;
use vstd::string::*;
use vstd::utf8::*;

verus! {

/// Text to put in place of the bytes `start..end` of some input.
pub struct Replacement {
    pub start: usize,
    pub end: usize,
    pub text: String,
}

impl Replacement {
    /// A replacement of the bytes `start..end` by `text`.
    pub fn new(start: usize, end: usize, text: &str) -> (r: Replacement)
        ensures
            r.start == start,
            r.end == end,
            r.text@ == text@,
    {
        Replacement { start, end, text: text.to_owned() }
    }
}

/// The replacements lie within `len` bytes, each with `start <= end`, in
/// ascending order and without overlapping.
pub open spec fn replacements_ordered(reps: Seq<Replacement>, len: int) -> bool {
    &&& forall|k: int|
        0 <= k < reps.len() ==> (#[trigger] reps[k]).start <= reps[k].end <= len
    &&& forall|k: int| 0 <= k < reps.len() - 1 ==> (#[trigger] reps[k]).end <= reps[k + 1].start
}

/// The bytes of `b` from `cursor` on, with the UTF-8 encoding of each
/// replacement's text in place of the bytes it covers.
pub open spec fn splice(b: Seq<u8>, reps: Seq<Replacement>, cursor: int) -> Seq<u8>
    decreases reps.len(),
{
    if reps.len() == 0 {
        b.subrange(cursor, b.len() as int)
    } else {
        b.subrange(cursor, reps[0].start as int) + encode_utf8(reps[0].text@) + splice(
            b,
            reps.drop_first(),
            reps[0].end as int,
        )
    }
}

/// With no replacement, the output is the input.
pub proof fn lemma_no_replacement_is_identity(b: Seq<u8>)
    ensures
        splice(b, seq![], 0) == b,
{
    assert(b.subrange(0, b.len() as int) =~= b);
}

/// Rewrites `input`: the bytes before the first replacement, its text, the
/// bytes between it and the next one, and so on, then the rest of `input`.
pub fn apply(input: &str, replacements: &[Replacement]) -> (r: Vec<u8>)
    requires
        replacements_ordered(replacements@, input.spec_bytes().len() as int),
    ensures
        r@ == splice(input.spec_bytes(), replacements@, 0),
{
    let bytes = input.as_bytes();
    let ghost b = bytes@;
    let ghost reps = replacements@;
    let mut out: Vec<u8> = Vec::new();
    let mut cursor: usize = 0;
    let mut k: usize = 0;
    proof {
        assert(reps.skip(0) =~= reps);
        assert(out@ + splice(b, reps, 0) =~= splice(b, reps, 0));
    }
    while k < replacements.len()
        invariant
            b == bytes@,
            b == input.spec_bytes(),
            reps == replacements@,
            replacements_ordered(reps, b.len() as int),
            k <= reps.len(),
            cursor <= b.len(),
            k < reps.len() ==> cursor <= reps[k as int].start,
            out@ + splice(b, reps.skip(k as int), cursor as int) == splice(b, reps, 0),
        decreases reps.len() - k,
    {
        let rep = &replacements[k];
        let ghost before = out@;
        let ghost from = cursor as int;
        proof {
            assert(reps.skip(k as int)[0] == *rep);
            assert(reps.skip(k as int).drop_first() =~= reps.skip(k + 1));
        }
        out.extend_from_slice(slice_subrange(bytes, cursor, rep.start));
        out.extend_from_slice(rep.text.as_str().as_bytes());
        cursor = rep.end;
        k += 1;
        proof {
            let piece = b.subrange(from, rep.start as int) + encode_utf8(rep.text@);
            assert(out@ =~= before + piece);
            let tail = splice(b, reps.skip(k as int), cursor as int);
            assert(before + (piece + tail) =~= out@ + tail);
        }
    }
    out.extend_from_slice(slice_subrange(bytes, cursor, bytes.len()));
    proof {
        assert(reps.skip(k as int) =~= Seq::<Replacement>::empty());
    }
    out
}

/// `std::io::Error`, the error of an I/O operation.
#[verifier::external_type_specification]
#[verifier::external_body]
pub struct ExIoError(std::io::Error);

/// Relies on `std::io::Write::write_all`, which writes every byte or fails.
#[verifier::external_body]
fn write_bytes<W: std::io::Write>(out: &mut W, bytes: &[u8]) -> (r: Result<(), std::io::Error>) {
    out.write_all(bytes)
}

/// Relies on `std::io::Write::flush`.
#[verifier::external_body]
fn flush_sink<W: std::io::Write>(out: &mut W) -> (r: Result<(), std::io::Error>) {
    out.flush()
}

/// Writes `bytes` to `out`, then flushes it. A failure to write or to flush
/// is returned at once.
pub fn write_out<W: std::io::Write>(mut out: W, bytes: &[u8]) -> (r: Result<(), std::io::Error>) {
    write_bytes(&mut out, bytes)?;
    flush_sink(&mut out)
}

/// Writes `input` rewritten by `replacements` (see [`apply`]) to `out`, then
/// flushes it. A failure to write or to flush is returned at once.
pub fn replace_all<W: std::io::Write>(out: W, input: &str, replacements: &[Replacement]) -> (r:
    Result<(), std::io::Error>)
    requires
        replacements_ordered(replacements@, input.spec_bytes().len() as int),
{
    let bytes = apply(input, replacements);
    write_out(out, bytes.as_slice())
}

/// The rewritten text and the number of replacements, or `None` when there
/// is no replacement, so that the text is to be left as it is.
pub fn render(content: &str, reps: &[Replacement]) -> (r: Option<(Vec<u8>, usize)>)
    requires
        replacements_ordered(reps@, content.spec_bytes().len() as int),
    ensures
        r is None <==> reps@.len() == 0,
        r matches Some(p) ==> p.0@ == splice(content.spec_bytes(), reps@, 0) && p.1 == reps@.len(),
{
    if reps.len() == 0 {
        None
    } else {
        Some((apply(content, reps), reps.len()))
    }
}

} // verus!
