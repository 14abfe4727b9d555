use fixred::redirect::{
    batch_step, collect_replacements, filters_decide, replacement_for, FileOutcome, Pattern,
    Redirector,
};
use fixred::replace::Replacement;
use fixred::resolve::{CachedResolver, Resolver};
use std::sync::atomic::{AtomicUsize, Ordering};

// redirect foo -> bar -> piyo
#[derive(Default)]
struct FooToPiyoResolver {
    shallow: bool,
}

impl Resolver for FooToPiyoResolver {
    fn shallow(&mut self, b: bool) {
        self.shallow = b;
    }
    fn resolve(&self, url: &str) -> Option<String> {
        let to = if self.shallow { "bar" } else { "piyo" };
        let new = url.replace("foo", to);
        if url != new {
            Some(new)
        } else {
            None
        }
    }
}

type TestRedirector = Redirector<FooToPiyoResolver>;

#[test]
fn fix_reader_writer() {
    let mut output = vec![];
    let input = "
        this is test https://foo1.example.com
        https://example.com/foo1
        https://example.com
        done.";

    let red = TestRedirector::default();
    let fixed = red.fix(input.as_bytes(), &mut output).unwrap();
    assert_eq!(fixed, 2);

    let want = input.replace("foo", "piyo");
    let have = String::from_utf8(output).unwrap();
    assert_eq!(want, have);
}

#[test]
fn fix_shallow_redirect() {
    let mut output = vec![];
    let input = "
        this is test https://foo1.example.com
        https://example.com/foo1
        https://example.com
        done.";

    let red = TestRedirector::default().shallow(true);
    let fixed = red.fix(input.as_bytes(), &mut output).unwrap();
    assert_eq!(fixed, 2);

    let want = input.replace("foo", "bar");
    let have = String::from_utf8(output).unwrap();
    assert_eq!(want, have);
}

#[test]
fn exract_urls() {
    let mut output = vec![];
    let input = "
        - https://github.com/rhysd/foo
        - https://rhysd.github.io/foo
        - https://docs.github.com/foo/some-docs
        - https://foo.example.com/foo
    ";

    let pat = Pattern::new("github\\.com/").ok().unwrap();
    let red = TestRedirector::default().extract(Some(pat));
    let fixed = red.fix(input.as_bytes(), &mut output).unwrap();
    assert_eq!(fixed, 2);

    let want = input
        .replace("github.com/rhysd/foo", "github.com/rhysd/piyo")
        .replace("docs.github.com/foo", "docs.github.com/piyo");
    let have = String::from_utf8(output).unwrap();
    assert_eq!(want, have);
}

#[test]
fn ignore_urls() {
    let mut output = vec![];
    let input = "
        - https://github.com/rhysd/foo
        - https://rhysd.github.io/foo
        - https://docs.github.com/foo/some-docs
        - https://foo.example.com/foo
    ";

    let pat = Pattern::new("github\\.com/").ok().unwrap();
    let red = TestRedirector::default().ignore(Some(pat));
    let fixed = red.fix(input.as_bytes(), &mut output).unwrap();
    assert_eq!(fixed, 2);

    let want = input
        .replace("rhysd.github.io/foo", "rhysd.github.io/piyo")
        .replace("foo.example.com/foo", "piyo.example.com/piyo");
    let have = String::from_utf8(output).unwrap();
    assert_eq!(want, have);
}

#[test]
fn extract_and_ignore_urls() {
    let mut output = vec![];
    let input = "
        - https://github.com/rhysd/foo
        - https://rhysd.github.io/foo
        - https://docs.github.com/foo/some-docs
        - https://foo.example.com/foo
    ";

    let pat1 = Pattern::new("example\\.com/").ok().unwrap();
    let pat2 = Pattern::new("github\\.com/").ok().unwrap();
    let red = TestRedirector::default()
        .extract(Some(pat1))
        .ignore(Some(pat2));
    let fixed = red.fix(input.as_bytes(), &mut output).unwrap();
    assert_eq!(fixed, 1);

    let want = input.replace("foo.example.com/foo", "piyo.example.com/piyo");
    let have = String::from_utf8(output).unwrap();
    assert_eq!(want, have);
}

#[test]
fn extract_github_then_ignore_docs() {
    let input = "
        - https://github.com/rhysd/foo
        - https://rhysd.github.io/foo
        - https://docs.github.com/foo/some-docs
        - https://foo.example.com/foo
    ";

    let red = TestRedirector::default().extract(Some(Pattern::new("github\\.com/").ok().unwrap()));
    let (out, n) = red.fix_file_content(input).unwrap();
    assert_eq!(n, 2);
    let want = input
        .replace("github.com/rhysd/foo", "github.com/rhysd/piyo")
        .replace("docs.github.com/foo", "docs.github.com/piyo");
    assert_eq!(String::from_utf8(out).unwrap(), want);

    let red = red.ignore(Some(Pattern::new("docs\\.github\\.com/").ok().unwrap()));
    let (out, n) = red.fix_file_content(input).unwrap();
    assert_eq!(n, 1);
    let want = input.replace("github.com/rhysd/foo", "github.com/rhysd/piyo");
    assert_eq!(String::from_utf8(out).unwrap(), want);
}

#[test]
fn invalid_pattern_is_refused() {
    assert!(Pattern::new("(unclosed").is_err());
    let p = Pattern::new("a+b").ok().unwrap();
    assert_eq!(p.as_str(), "a+b");
    assert!(p.is_match("xxaaab"));
    assert!(!p.is_match("b"));
}

#[test]
fn should_resolve_follows_filters() {
    let red = TestRedirector::default()
        .extract(Some(Pattern::new("example").ok().unwrap()))
        .ignore(Some(Pattern::new("old").ok().unwrap()));
    assert!(red.should_resolve("https://example.com/new"));
    assert!(!red.should_resolve("https://example.com/old"));
    assert!(!red.should_resolve("https://other.org/new"));
    assert!(TestRedirector::default().should_resolve("https://other.org/old"));
}

#[test]
fn filter_decisions() {
    assert!(filters_decide(None, None));
    assert!(filters_decide(Some(true), None));
    assert!(!filters_decide(Some(false), None));
    assert!(filters_decide(None, Some(false)));
    assert!(!filters_decide(None, Some(true)));
    assert!(filters_decide(Some(true), Some(false)));
    assert!(!filters_decide(Some(true), Some(true)));
    assert!(!filters_decide(Some(false), Some(false)));
}

#[test]
fn no_link_file_is_left_alone() {
    let red = TestRedirector::default();
    assert!(red.fix_file_content("no links here, just https:// and text").is_none());
    assert!(red.fix_file_content("").is_none());
    // A link that does not redirect leaves the file alone as well.
    assert!(red.fix_file_content("see https://example.com/bar").is_none());
    let red = red.ignore(Some(Pattern::new("foo").ok().unwrap()));
    assert!(red.fix_file_content("see https://foo.example.com").is_none());
}

#[test]
fn empty_input_passes_through() {
    let mut output = vec![];
    let fixed = TestRedirector::default().fix("".as_bytes(), &mut output).unwrap();
    assert_eq!(fixed, 0);
    assert!(output.is_empty());
}

#[derive(Default)]
struct CountingResolver {
    calls: AtomicUsize,
}

impl Resolver for CountingResolver {
    fn shallow(&mut self, _b: bool) {}
    fn resolve(&self, url: &str) -> Option<String> {
        self.calls.fetch_add(1, Ordering::SeqCst);
        let new = url.replace("foo", "piyo");
        if url != new {
            Some(new)
        } else {
            None
        }
    }
}

#[test]
fn cache_resolves_each_url_once() {
    let red = Redirector::<CachedResolver<CountingResolver>>::default();
    let input = "a https://foo.example/x b https://foo.example/x c";
    let (out, n) = red.fix_file_content(input).unwrap();
    assert_eq!(n, 2);
    assert_eq!(
        String::from_utf8(out).unwrap(),
        "a https://piyo.example/x b https://piyo.example/x c"
    );

    let cached = CachedResolver::new(CountingResolver::default());
    assert_eq!(cached.resolve("https://foo.example/x"), Some("https://piyo.example/x".to_string()));
    assert_eq!(cached.resolve("https://foo.example/x"), Some("https://piyo.example/x".to_string()));
    assert_eq!(cached.resolve("https://bar.example/"), None);
    assert_eq!(cached.resolve("https://bar.example/"), None);
    assert_eq!(cached.inner().calls.load(Ordering::SeqCst), 2);
}

#[test]
fn collect_keeps_order_and_drops_nones() {
    let outs = vec![
        Some(Replacement::new(0, 2, "a")),
        None,
        Some(Replacement::new(5, 7, "b")),
        None,
    ];
    let r = collect_replacements(outs);
    let got: Vec<_> = r.iter().map(|x| (x.start, x.end, x.text.clone())).collect();
    assert_eq!(got, vec![(0, 2, "a".to_string()), (5, 7, "b".to_string())]);
}

#[test]
fn batch_failure_stops_batch() {
    assert_eq!(batch_step(3, &FileOutcome::Fixed(2)), Some(5));
    assert_eq!(batch_step(3, &FileOutcome::Unchanged), Some(3));
    assert_eq!(batch_step(3, &FileOutcome::NotUtf8), Some(3));
    assert_eq!(batch_step(3, &FileOutcome::Failed), None);
    assert_eq!(batch_step(usize::MAX, &FileOutcome::Fixed(1)), Some(usize::MAX));

    let outcomes = [
        FileOutcome::Fixed(2),
        FileOutcome::NotUtf8,
        FileOutcome::Failed,
        FileOutcome::Fixed(4),
    ];
    let mut total = Some(0);
    for o in outcomes.iter() {
        total = match total {
            Some(t) => batch_step(t, o),
            None => None,
        };
    }
    assert_eq!(total, None);
}

#[test]
fn replacement_takes_the_answer() {
    assert!(replacement_for(3, 9, None).is_none());
    let r = replacement_for(3, 9, Some("https://b.example/".to_string())).unwrap();
    assert_eq!((r.start, r.end, r.text.as_str()), (3, 9, "https://b.example/"));
}

#[test]
fn fix_text_rewrites_and_counts() {
    let input = "a https://foo.example/ b https://example.com/ c";
    let (out, n) = TestRedirector::default().fix_text(input);
    assert_eq!(n, 1);
    assert_eq!(
        String::from_utf8(out).unwrap(),
        "a https://piyo.example/ b https://example.com/ c"
    );
    let (out, n) = TestRedirector::default().fix_text("nothing here");
    assert_eq!(n, 0);
    assert_eq!(out, b"nothing here".to_vec());
}

#[test]
fn file_content_with_links_is_rewritten() {
    let input = "https://foo1.example.com\nhttps://example.com/foo1\nhttps://example.com\n";
    let (out, n) = TestRedirector::default().fix_file_content(input).unwrap();
    assert_eq!(n, 2);
    assert_eq!(String::from_utf8(out).unwrap(), input.replace("foo", "piyo"));
}
