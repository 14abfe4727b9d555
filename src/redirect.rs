//! Fixing the links of a text: finding them, choosing which to resolve,
//! resolving them in parallel and rewriting the text.
use crate::replace::{
    apply, lemma_no_replacement_is_identity, render, replacements_ordered, splice, write_out,
    Replacement,
};
use crate::resolve::Resolver;
use crate::text::substring;
use crate::url::{find_all_urls, pairs_view, spans_well_formed, url_spans};
use rayon::iter::{IntoParallelIterator, ParallelIterator};
use regex::Regex;
use vstd::prelude::*;
use vstd::string::*;
use vstd::utf8::*;

verus! {

/// Whether `Regex::new` accepts the regular expression `pattern`.
pub uninterp spec fn regex_valid(pattern: Seq<char>) -> bool;

/// Whether the regular expression `pattern`, as `Regex::new` builds it,
/// matches somewhere in `text`.
pub uninterp spec fn regex_matches(pattern: Seq<char>, text: Seq<char>) -> bool;

/// `regex::Regex`, a compiled regular expression.
#[verifier::external_type_specification]
#[verifier::external_body]
pub struct ExRegex(Regex);

/// `regex::Error`, why a regular expression was refused.
#[verifier::external_type_specification]
#[verifier::external_body]
pub struct ExRegexError(regex::Error);

/// Relies on `regex::Regex::new`, whose success depends on the pattern
/// alone.
#[verifier::external_body]
fn compile(pattern: &str) -> (r: Result<Regex, regex::Error>)
    ensures
        r is Ok <==> regex_valid(pattern@),
{
    Regex::new(pattern)
}

/// A regular expression, with the text it was built from.
pub struct Pattern {
    source: String,
    regex: Regex,
}

/// Why a pattern was refused.
pub struct PatternError {
    pub error: regex::Error,
}

impl View for Pattern {
    type V = Seq<char>;

    closed spec fn view(&self) -> Seq<char> {
        self.source@
    }
}

/// Relies on `Regex::is_match`, for a regex that `Regex::new` built from
/// the pattern's own text: only `Pattern::new` builds a `Pattern`.
#[verifier::external_body]
fn pattern_matches(p: &Pattern, text: &str) -> (r: bool)
    ensures
        r == regex_matches(p@, text@),
{
    p.regex.is_match(text)
}

impl Pattern {
    /// Builds the regular expression `source`.
    pub fn new(source: &str) -> (r: Result<Pattern, PatternError>)
        ensures
            r is Ok <==> regex_valid(source@),
            r matches Ok(p) ==> p@ == source@,
    {
        match compile(source) {
            Ok(regex) => Ok(Pattern { source: source.to_owned(), regex }),
            Err(error) => Err(PatternError { error }),
        }
    }

    /// The text the pattern was built from.
    pub fn as_str(&self) -> (r: &str)
        ensures
            r@ == self@,
    {
        self.source.as_str()
    }

    /// Whether the pattern matches somewhere in `text`.
    pub fn is_match(&self, text: &str) -> (r: bool)
        ensures
            r == regex_matches(self@, text@),
    {
        pattern_matches(self, text)
    }
}

/// The view of an optional pattern.
pub open spec fn pattern_view(p: Option<Pattern>) -> Option<Seq<char>> {
    match p {
        Some(q) => Some(q@),
        None => None,
    }
}

/// Whether `url` is to be resolved: it matches `extract`, when there is
/// one, and does not match `ignore`, when there is one.
pub open spec fn passes_filters(
    extract: Option<Seq<char>>,
    ignore: Option<Seq<char>>,
    url: Seq<char>,
) -> bool {
    &&& match extract {
        Some(p) => regex_matches(p, url),
        None => true,
    }
    &&& match ignore {
        Some(p) => !regex_matches(p, url),
        None => true,
    }
}

/// The URLs that both filters let through are those that `extract` lets
/// through, less those that `ignore` would let through as an extract
/// filter.
pub proof fn lemma_filters_compose(extract: Seq<char>, ignore: Seq<char>, url: Seq<char>)
    ensures
        passes_filters(Some(extract), Some(ignore), url) == (passes_filters(Some(extract), None, url)
            && !passes_filters(Some(ignore), None, url)),
        passes_filters(None, None, url),
{
}

/// Whether a URL is to be resolved, given whether the extract pattern
/// matches it (`None` when there is none) and whether the ignore pattern
/// matches it (`None` when there is none).
pub fn filters_decide(extract_hit: Option<bool>, ignore_hit: Option<bool>) -> (r: bool)
    ensures
        r == (extract_hit != Some(false) && ignore_hit != Some(true)),
{
    let extract_ok = match extract_hit {
        Some(hit) => hit,
        None => true,
    };
    let ignore_ok = match ignore_hit {
        Some(hit) => !hit,
        None => true,
    };
    extract_ok && ignore_ok
}

/// What resolving the span `span` of the text whose bytes are `b` with
/// `res` gives: nothing when its URL does not pass the filters; otherwise a
/// replacement of exactly that span by an answer of `res` for the URL, or
/// nothing when `res` may answer nothing.
pub open spec fn span_outcome<R: Resolver>(
    res: R,
    extract: Option<Seq<char>>,
    ignore: Option<Seq<char>>,
    b: Seq<u8>,
    span: (int, int),
    o: Option<Replacement>,
) -> bool {
    let url = span_url(b, span);
    match o {
        None => !passes_filters(extract, ignore, url) || res.answers(url, None),
        Some(rep) => rep.start == span.0 && rep.end == span.1 && passes_filters(
            extract,
            ignore,
            url,
        ) && res.answers(url, Some(rep.text@)),
    }
}

/// The URL at the byte span `span` of the text whose bytes are `b`.
pub open spec fn span_url(b: Seq<u8>, span: (int, int)) -> Seq<char> {
    decode_utf8(b.subrange(span.0, span.1))
}

/// No URL of the text whose bytes are `b` is to be replaced: none that
/// passes the filters has an answer of `res` other than nothing.
pub open spec fn nothing_to_replace<R: Resolver>(
    res: R,
    extract: Option<Seq<char>>,
    ignore: Option<Seq<char>>,
    b: Seq<u8>,
) -> bool {
    forall|k: int, t: Seq<char>|
        0 <= k < url_spans(b).len() ==> !(passes_filters(
            extract,
            ignore,
            span_url(b, url_spans(b)[k]),
        ) && #[trigger] res.answers(span_url(b, url_spans(b)[k]), Some(t)))
}

/// Outcomes that are all `None` hold no replacement.
proof fn lemma_somes_of_nones(outs: Seq<Option<Replacement>>)
    requires
        forall|k: int| 0 <= k < outs.len() ==> #[trigger] outs[k] is None,
    ensures
        somes(outs).len() == 0,
    decreases outs.len(),
{
    if outs.len() > 0 {
        let init = outs.drop_last();
        assert forall|k: int| 0 <= k < init.len() implies #[trigger] init[k] is None by {
            assert(init[k] == outs[k]);
        }
        lemma_somes_of_nones(init);
        assert(outs[outs.len() - 1] == outs.last());
    }
}

/// A text with no URL to replace, because none passes the filters or the
/// resolver answers nothing for those that do, gets no replacement and
/// comes out as it went in.
pub proof fn lemma_nothing_to_replace_no_change<R: Resolver>(
    res: R,
    extract: Option<Seq<char>>,
    ignore: Option<Seq<char>>,
    b: Seq<u8>,
    reps: Seq<Replacement>,
)
    requires
        fixes_for(res, extract, ignore, b, reps),
        nothing_to_replace(res, extract, ignore, b),
    ensures
        reps.len() == 0,
        splice(b, reps, 0) == b,
{
    let outs = choose|outs: Seq<Option<Replacement>>|
        #![trigger somes(outs)]
        outs.len() == url_spans(b).len() && (forall|k: int|
            0 <= k < outs.len() ==> span_outcome(res, extract, ignore, b, url_spans(b)[k], outs[k]))
            && reps == somes(outs);
    assert forall|k: int| 0 <= k < outs.len() implies #[trigger] outs[k] is None by {
        assert(span_outcome(res, extract, ignore, b, url_spans(b)[k], outs[k]));
        if let Some(rep) = outs[k] {
            let url = span_url(b, url_spans(b)[k]);
            assert(!(passes_filters(extract, ignore, url) && res.answers(url, Some(rep.text@))));
        }
    }
    lemma_somes_of_nones(outs);
    assert(reps =~= Seq::<Replacement>::empty());
    lemma_no_replacement_is_identity(b);
}

/// The replacements that the outcomes hold, in order.
pub open spec fn somes(outs: Seq<Option<Replacement>>) -> Seq<Replacement>
    decreases outs.len(),
{
    if outs.len() == 0 {
        seq![]
    } else {
        let rest = somes(outs.drop_last());
        match outs.last() {
            Some(rep) => rest.push(rep),
            None => rest,
        }
    }
}

/// `reps` is what resolving the URLs of the text whose bytes are `b` with
/// `res` may give: one outcome for each URL span, in order.
pub open spec fn fixes_for<R: Resolver>(
    res: R,
    extract: Option<Seq<char>>,
    ignore: Option<Seq<char>>,
    b: Seq<u8>,
    reps: Seq<Replacement>,
) -> bool {
    exists|outs: Seq<Option<Replacement>>|
        #![trigger somes(outs)]
        outs.len() == url_spans(b).len() && (forall|k: int|
            0 <= k < outs.len() ==> span_outcome(res, extract, ignore, b, url_spans(b)[k], outs[k]))
            && reps == somes(outs)
}

/// Two replacements of the same bytes by the same text.
pub open spec fn same_replacement(a: Replacement, b: Replacement) -> bool {
    a.start == b.start && a.end == b.end && a.text@ == b.text@
}

/// Outcomes that agree span by span hold agreeing replacements.
proof fn lemma_somes_agree(o1: Seq<Option<Replacement>>, o2: Seq<Option<Replacement>>)
    requires
        o1.len() == o2.len(),
        forall|k: int|
            0 <= k < o1.len() ==> (#[trigger] o1[k] is None <==> o2[k] is None) && (o1[k] matches Some(
                a,
            ) ==> same_replacement(a, o2[k]->0)),
    ensures
        somes(o1).len() == somes(o2).len(),
        forall|i: int|
            0 <= i < somes(o1).len() ==> same_replacement(#[trigger] somes(o1)[i], somes(o2)[i]),
    decreases o1.len(),
{
    if o1.len() > 0 {
        let (i1, i2) = (o1.drop_last(), o2.drop_last());
        assert forall|k: int| 0 <= k < i1.len() implies (#[trigger] i1[k] is None <==> i2[k] is None)
            && (i1[k] matches Some(a) ==> same_replacement(a, i2[k]->0)) by {
            assert(i1[k] == o1[k] && i2[k] == o2[k]);
        }
        lemma_somes_agree(i1, i2);
        assert(o1.last() == o1[o1.len() - 1] && o2.last() == o2[o2.len() - 1]);
    }
}

/// Agreeing replacements rewrite a text alike.
proof fn lemma_splice_agree(b: Seq<u8>, r1: Seq<Replacement>, r2: Seq<Replacement>, cursor: int)
    requires
        r1.len() == r2.len(),
        forall|i: int| 0 <= i < r1.len() ==> same_replacement(#[trigger] r1[i], r2[i]),
    ensures
        splice(b, r1, cursor) == splice(b, r2, cursor),
    decreases r1.len(),
{
    if r1.len() > 0 {
        assert(same_replacement(r1[0], r2[0]));
        assert forall|i: int| 0 <= i < r1.drop_first().len() implies same_replacement(
            #[trigger] r1.drop_first()[i],
            r2.drop_first()[i],
        ) by {
            assert(same_replacement(r1[i + 1], r2[i + 1]));
        }
        lemma_splice_agree(b, r1.drop_first(), r2.drop_first(), r1[0].end as int);
    }
}

/// When `res` has one answer for each URL, what fixing a text gives is
/// determined: any two lists of replacements that it may give hold the same
/// replacements and rewrite the text alike.
pub proof fn lemma_fix_is_determined<R: Resolver>(
    res: R,
    extract: Option<Seq<char>>,
    ignore: Option<Seq<char>>,
    b: Seq<u8>,
    reps1: Seq<Replacement>,
    reps2: Seq<Replacement>,
)
    requires
        forall|url: Seq<char>, a1: Option<Seq<char>>, a2: Option<Seq<char>>|
            res.answers(url, a1) && res.answers(url, a2) ==> a1 == a2,
        fixes_for(res, extract, ignore, b, reps1),
        fixes_for(res, extract, ignore, b, reps2),
    ensures
        reps1.len() == reps2.len(),
        forall|i: int| 0 <= i < reps1.len() ==> same_replacement(#[trigger] reps1[i], reps2[i]),
        splice(b, reps1, 0) == splice(b, reps2, 0),
{
    let sp = url_spans(b);
    let o1 = choose|outs: Seq<Option<Replacement>>|
        #![trigger somes(outs)]
        outs.len() == sp.len() && (forall|k: int|
            0 <= k < outs.len() ==> span_outcome(res, extract, ignore, b, sp[k], outs[k]))
            && reps1 == somes(outs);
    let o2 = choose|outs: Seq<Option<Replacement>>|
        #![trigger somes(outs)]
        outs.len() == sp.len() && (forall|k: int|
            0 <= k < outs.len() ==> span_outcome(res, extract, ignore, b, sp[k], outs[k]))
            && reps2 == somes(outs);
    assert forall|k: int| 0 <= k < o1.len() implies (#[trigger] o1[k] is None <==> o2[k] is None)
        && (o1[k] matches Some(a) ==> same_replacement(a, o2[k]->0)) by {
        assert(span_outcome(res, extract, ignore, b, sp[k], o1[k]));
        assert(span_outcome(res, extract, ignore, b, sp[k], o2[k]));
        let url = span_url(b, sp[k]);
        match (o1[k], o2[k]) {
            (Some(x), Some(y)) => {
                assert(res.answers(url, Some(x.text@)) && res.answers(url, Some(y.text@)));
            },
            (Some(x), None) => {
                assert(res.answers(url, Some(x.text@)));
                if passes_filters(extract, ignore, url) {
                    assert(res.answers(url, None::<Seq<char>>));
                }
            },
            (None, Some(y)) => {
                assert(res.answers(url, Some(y.text@)));
                if passes_filters(extract, ignore, url) {
                    assert(res.answers(url, None::<Seq<char>>));
                }
            },
            (None, None) => {},
        }
    }
    lemma_somes_agree(o1, o2);
    lemma_splice_agree(b, reps1, reps2, 0);
}

/// Replacements of disjoint ascending spans are ascending and disjoint.
proof fn lemma_somes_ordered(sp: Seq<(int, int)>, outs: Seq<Option<Replacement>>, len: int)
    requires
        outs.len() == sp.len(),
        forall|k: int| 0 <= k < sp.len() ==> 0 <= (#[trigger] sp[k]).0 < sp[k].1 <= len,
        forall|k: int| 0 <= k < sp.len() - 1 ==> (#[trigger] sp[k]).1 <= sp[k + 1].0,
        forall|k: int|
            0 <= k < outs.len() ==> (#[trigger] outs[k] matches Some(rep) ==> rep.start == sp[k].0
                && rep.end == sp[k].1),
    ensures
        replacements_ordered(somes(outs), len),
        somes(outs).len() > 0 ==> somes(outs).last().end <= sp.last().1,
        somes(outs).len() <= outs.len(),
    decreases outs.len(),
{
    if outs.len() > 0 {
        let n = outs.len() - 1;
        let sp0 = sp.drop_last();
        let outs0 = outs.drop_last();
        assert forall|k: int| 0 <= k < sp0.len() - 1 implies (#[trigger] sp0[k]).1 <= sp0[k + 1].0 by {
            assert(sp0[k] == sp[k] && sp0[k + 1] == sp[k + 1]);
        }
        assert forall|k: int| 0 <= k < outs0.len() implies (#[trigger] outs0[k] matches Some(rep)
            ==> rep.start == sp0[k].0 && rep.end == sp0[k].1) by {
            assert(outs0[k] == outs[k] && sp0[k] == sp[k]);
        }
        lemma_somes_ordered(sp0, outs0, len);
        if n > 0 {
            assert(sp[n - 1].1 <= sp[n].0);
            assert(sp0.last() == sp[n - 1]);
        }
        let rest = somes(outs0);
        if let Some(rep) = outs.last() {
            assert(outs[n] == outs.last());
            let all = rest.push(rep);
            assert forall|k: int| 0 <= k < all.len() implies (#[trigger] all[k]).start <= all[k].end
                <= len by {
                if k < rest.len() {
                    assert(all[k] == rest[k]);
                }
            }
            assert forall|k: int| 0 <= k < all.len() - 1 implies (#[trigger] all[k]).end <= all[k
                + 1].start by {
                assert(all[k] == rest[k]);
                if k + 1 < rest.len() {
                    assert(all[k + 1] == rest[k + 1]);
                }
            }
        }
    }
}

/// The view of an outcome's span.
spec fn span_of(p: (usize, usize)) -> (int, int) {
    (p.0 as int, p.1 as int)
}

/// What the files of a batch come to, one at a time.
pub enum FileOutcome {
    /// The file was rewritten with this many links replaced.
    Fixed(usize),
    /// No link needed replacing, so the file was left as it was.
    Unchanged,
    /// The file is not UTF-8 text, so it was passed over.
    NotUtf8,
    /// Reading or writing the file failed.
    Failed,
}

/// The running count of links fixed after one more file, from `total`:
/// `None` when the file failed. The count saturates at `usize::MAX`.
pub open spec fn step_result(total: nat, outcome: FileOutcome) -> Option<nat> {
    match outcome {
        FileOutcome::Fixed(n) => Some(
            if total + n > usize::MAX {
                usize::MAX as nat
            } else {
                (total + n) as nat
            },
        ),
        FileOutcome::Unchanged => Some(total),
        FileOutcome::NotUtf8 => Some(total),
        FileOutcome::Failed => None,
    }
}

/// The number of links that a batch fixed, or `None` when a file of it
/// failed: a file that is not UTF-8 is passed over, but a failure to read or
/// write a file ends the batch.
pub open spec fn batch_total(outcomes: Seq<FileOutcome>) -> Option<nat>
    decreases outcomes.len(),
{
    if outcomes.len() == 0 {
        Some(0)
    } else {
        match batch_total(outcomes.drop_last()) {
            None => None,
            Some(t) => step_result(t, outcomes.last()),
        }
    }
}

/// One failed file fails the whole batch, whatever the other files come to.
pub proof fn lemma_batch_fails_fast(outcomes: Seq<FileOutcome>, i: int)
    requires
        0 <= i < outcomes.len(),
        outcomes[i] is Failed,
    ensures
        batch_total(outcomes) is None,
    decreases outcomes.len(),
{
    if i < outcomes.len() - 1 {
        assert(outcomes.drop_last()[i] == outcomes[i]);
        lemma_batch_fails_fast(outcomes.drop_last(), i);
    }
}

/// A batch with no failed file succeeds.
pub proof fn lemma_batch_succeeds(outcomes: Seq<FileOutcome>)
    requires
        forall|i: int| 0 <= i < outcomes.len() ==> !(#[trigger] outcomes[i] is Failed),
    ensures
        batch_total(outcomes) is Some,
    decreases outcomes.len(),
{
    if outcomes.len() > 0 {
        let init = outcomes.drop_last();
        assert forall|i: int| 0 <= i < init.len() implies !(#[trigger] init[i] is Failed) by {
            assert(init[i] == outcomes[i]);
        }
        lemma_batch_succeeds(init);
        assert(outcomes[outcomes.len() - 1] == outcomes.last());
    }
}

/// The running count of a batch after one more file, from `total`: `None`
/// when the file failed, which ends the batch.
pub fn batch_step(total: usize, outcome: &FileOutcome) -> (r: Option<usize>)
    ensures
        match step_result(total as nat, *outcome) {
            Some(t) => r == Some(t as usize),
            None => r is None,
        },
{
    match outcome {
        FileOutcome::Fixed(n) => Some(total.saturating_add(*n)),
        FileOutcome::Unchanged => Some(total),
        FileOutcome::NotUtf8 => Some(total),
        FileOutcome::Failed => None,
    }
}

/// Finds the links of texts and replaces each with the address it
/// redirects to, as `R` resolves it.
#[derive(Default)]
pub struct Redirector<R: Resolver> {
    extract: Option<Pattern>,
    ignore: Option<Pattern>,
    resolver: R,
}

impl<R: Resolver> Redirector<R> {
    /// The pattern that a URL must match to be resolved, if any.
    pub closed spec fn extract_spec(&self) -> Option<Seq<char>> {
        pattern_view(self.extract)
    }

    /// The pattern that a URL must not match to be resolved, if any.
    pub closed spec fn ignore_spec(&self) -> Option<Seq<char>> {
        pattern_view(self.ignore)
    }

    /// The resolver.
    pub closed spec fn resolver_spec(&self) -> R {
        self.resolver
    }

    /// Resolves only the URLs that `pattern` matches, or all of them when
    /// it is `None`.
    pub fn extract(self, pattern: Option<Pattern>) -> (r: Self)
        ensures
            r.extract_spec() == pattern_view(pattern),
            r.ignore_spec() == self.ignore_spec(),
            r.resolver_spec() == self.resolver_spec(),
    {
        Redirector { extract: pattern, ..self }
    }

    /// Passes over the URLs that `pattern` matches, or none of them when it
    /// is `None`.
    pub fn ignore(self, pattern: Option<Pattern>) -> (r: Self)
        ensures
            r.ignore_spec() == pattern_view(pattern),
            r.extract_spec() == self.extract_spec(),
            r.resolver_spec() == self.resolver_spec(),
    {
        Redirector { ignore: pattern, ..self }
    }

    /// Follows only the first redirect of each URL when `enabled` holds.
    pub fn shallow(self, enabled: bool) -> (r: Self)
        ensures
            r.extract_spec() == self.extract_spec(),
            r.ignore_spec() == self.ignore_spec(),
    {
        let mut red = self;
        red.resolver.shallow(enabled);
        red
    }

    /// Whether `url` passes the extract and ignore patterns.
    pub fn should_resolve(&self, url: &str) -> (r: bool)
        ensures
            r == passes_filters(self.extract_spec(), self.ignore_spec(), url@),
    {
        let extract_hit = match &self.extract {
            Some(p) => Some(p.is_match(url)),
            None => None,
        };
        let ignore_hit = match &self.ignore {
            Some(p) => Some(p.is_match(url)),
            None => None,
        };
        filters_decide(extract_hit, ignore_hit)
    }

    /// Resolves the URL at bytes `start..end` of `content`, if it passes the
    /// filters, into a replacement of those bytes.
    pub fn resolve_span(&self, content: &str, start: usize, end: usize) -> (r: Option<Replacement>)
        requires
            start <= end,
            crate::text::on_char_boundary(content@, start as int),
            crate::text::on_char_boundary(content@, end as int),
        ensures
            span_outcome(
                self.resolver_spec(),
                self.extract_spec(),
                self.ignore_spec(),
                content.spec_bytes(),
                (start as int, end as int),
                r,
            ),
    {
        let url = substring(content, start, end);
        if !self.should_resolve(url) {
            return None;
        }
        replacement_for(start, end, self.resolver.resolve(url))
    }

    /// Finds the replacements for the links of `content`: each URL that
    /// passes the filters and that the resolver resolves is replaced by what
    /// it resolves to.
    pub fn find_replacements(&self, content: &str) -> (r: Vec<Replacement>)
        ensures
            fixes_for(self.resolver_spec(), self.extract_spec(), self.ignore_spec(), content.spec_bytes(), r@),
            replacements_ordered(r@, content.spec_bytes().len() as int),
    {
        let spans = find_all_urls(content);
        let ghost sp = pairs_view(spans@);
        let outcomes = resolve_spans(self, content, spans);
        let r = collect_replacements(outcomes);
        proof {
            let b = content.spec_bytes();
            let outs = outcomes@;
            assert forall|k: int| 0 <= k < outs.len() implies span_outcome(
                self.resolver_spec(),
                self.extract_spec(),
                self.ignore_spec(),
                b,
                url_spans(b)[k],
                outs[k],
            ) by {
                assert(sp[k] == span_of(spans@[k]));
            }
            assert forall|k: int| 0 <= k < sp.len() implies 0 <= (#[trigger] sp[k]).0 < sp[k].1
                <= b.len() by {
                crate::text::lemma_take_skip(content@, 0);
            }
            assert forall|k: int| 0 <= k < outs.len() implies (#[trigger] outs[k] matches Some(rep)
                ==> rep.start == sp[k].0 && rep.end == sp[k].1) by {
                assert(sp[k] == span_of(spans@[k]));
            }
            lemma_somes_ordered(sp, outs, b.len() as int);
        }
        r
    }

    /// `text` with its links fixed, and the number of links replaced: both
    /// come from one list of replacements for `text`.
    pub fn fix_text(&self, text: &str) -> (r: (Vec<u8>, usize))
        ensures
            exists|reps: Seq<Replacement>|
                fixes_for(self.resolver_spec(), self.extract_spec(), self.ignore_spec(), text.spec_bytes(), reps)
                    && replacements_ordered(reps, text.spec_bytes().len() as int)
                    && r.0@ == splice(text.spec_bytes(), reps, 0) && r.1 == reps.len(),
    {
        let replacements = self.find_replacements(text);
        let out = apply(text, replacements.as_slice());
        (out, replacements.len())
    }

    /// Reads all of `input`, fixes its links (see [`Redirector::fix_text`])
    /// and writes the result to `output`; gives the number of links
    /// replaced.
    pub fn fix<T: std::io::Read, U: std::io::Write>(&self, input: T, output: U) -> (r: Result<
        usize,
        std::io::Error,
    >)
        ensures
            r matches Ok(n) ==> exists|b: Seq<u8>, reps: Seq<Replacement>|
                fixes_for(self.resolver_spec(), self.extract_spec(), self.ignore_spec(), b, reps) && reps.len() == n,
    {
        let content = read_all(input)?;
        let text = content.as_str();
        let (out, count) = self.fix_text(text);
        write_out(output, out.as_slice())?;
        Ok(count)
    }

    /// The new content of a file whose text is `content`, with the number of
    /// links replaced, or `None` when no link was replaced, so that the file
    /// is left as it is (see [`render`]).
    pub fn fix_file_content(&self, content: &str) -> (r: Option<(Vec<u8>, usize)>)
        ensures
            exists|reps: Seq<Replacement>|
                fixes_for(self.resolver_spec(), self.extract_spec(), self.ignore_spec(), content.spec_bytes(), reps)
                    && (r is None <==> reps.len() == 0) && (r matches Some(p) ==> p.0@ == splice(
                    content.spec_bytes(),
                    reps,
                    0,
                ) && p.1 == reps.len()),
            nothing_to_replace(self.resolver_spec(), self.extract_spec(), self.ignore_spec(), content.spec_bytes()) ==> r is None,
    {
        let replacements = self.find_replacements(content);
        proof {
            if nothing_to_replace(self.resolver_spec(), self.extract_spec(), self.ignore_spec(), content.spec_bytes()) {
                lemma_nothing_to_replace_no_change(
                    self.resolver_spec(),
                    self.extract_spec(),
                    self.ignore_spec(),
                    content.spec_bytes(),
                    replacements@,
                );
            }
        }
        render(content, replacements.as_slice())
    }
}

/// Relies on rayon: `into_par_iter` on a `Vec`, `map` and `collect` into a
/// `Vec`, which keeps the order of the items. Each span is mapped once, by
/// `Redirector::resolve_span`, whose contract gives each outcome.
#[verifier::external_body]
fn resolve_spans<R: Resolver>(red: &Redirector<R>, content: &str, spans: Vec<(usize, usize)>) -> (r:
    Vec<Option<Replacement>>)
    requires
        spans_well_formed(content@, pairs_view(spans@)),
    ensures
        r.len() == spans.len(),
        forall|k: int|
            0 <= k < r.len() ==> span_outcome(
                red.resolver_spec(),
                red.extract_spec(),
                red.ignore_spec(),
                content.spec_bytes(),
                span_of(#[trigger] spans@[k]),
                r@[k],
            ),
{
    spans.into_par_iter().map(|(start, end)| red.resolve_span(content, start, end)).collect()
}

/// Relies on `std::io::Read::read_to_string`.
#[verifier::external_body]
fn read_all<T: std::io::Read>(mut input: T) -> (r: Result<String, std::io::Error>) {
    let mut content = String::new();
    input.read_to_string(&mut content)?;
    Ok(content)
}

/// The replacement of the bytes `start..end` by the resolver's `answer`
/// for the URL there, if it gave one.
pub fn replacement_for(start: usize, end: usize, answer: Option<String>) -> (r: Option<Replacement>)
    ensures
        answer is None ==> r is None,
        answer matches Some(t) ==> (r matches Some(p) && p.start == start && p.end == end && p.text@
            == t@),
{
    match answer {
        Some(text) => Some(Replacement { start, end, text }),
        None => None,
    }
}

/// The replacements that the outcomes hold, in order.
pub fn collect_replacements(outcomes: Vec<Option<Replacement>>) -> (r: Vec<Replacement>)
    ensures
        r@ == somes(outcomes@),
{
    let ghost outs = outcomes@;
    let mut r: Vec<Replacement> = Vec::new();
    proof {
        assert(outs.take(0) =~= Seq::<Option<Replacement>>::empty());
    }
    for o in it: outcomes
        invariant
            it.seq() == outs,
            r@ == somes(outs.take(it.index() as int)),
    {
        let ghost k = it.index() as int;
        proof {
            assert(outs.take(k + 1).drop_last() =~= outs.take(k));
            assert(outs.take(k + 1).last() == o);
        }
        if let Some(rep) = o {
            r.push(rep);
        }
    }
    proof {
        assert(outs.take(outs.len() as int) =~= outs);
    }
    r
}

/// A redirector that resolves URLs with curl.
pub type CurlRedirector = Redirector<crate::resolve::CurlResolver>;

} // verus!
