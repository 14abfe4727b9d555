use fixred::url::{classify_char, find_all_urls, url_char_kind, Char};

#[test]
fn empty() {
    let v = find_all_urls("");
    assert!(v.is_empty());
}

#[test]
fn no_url() {
    let v = find_all_urls("foo bar baz");
    assert!(v.is_empty());
}

#[test]
fn empty_after_scheme() {
    let v = find_all_urls("contains(s, 'https://')");
    assert!(v.is_empty());
}

#[test]
fn entire_url() {
    let s = "http://example.com";
    assert_eq!(find_all_urls(s), &[(0, s.len())]);

    let s = "https://example.com";
    assert_eq!(find_all_urls(s), &[(0, s.len())]);
}

#[test]
fn url_in_sentence() {
    let s = "the URL is https://example.com.";
    let (b, e) = find_all_urls(s)[0];
    assert_eq!(&s[b..e], "https://example.com");

    let s = "the URL is https://example.com!";
    let (b, e) = find_all_urls(s)[0];
    assert_eq!(&s[b..e], "https://example.com");

    let s = "the URL is [the link](https://example.com)";
    let (b, e) = find_all_urls(s)[0];
    assert_eq!(&s[b..e], "https://example.com");
}

#[test]
fn url_ends_with_slash() {
    let s = "the GitHub URL is https://github.com/, check it out";
    let (b, e) = find_all_urls(s)[0];
    assert_eq!(&s[b..e], "https://github.com/");
}

#[test]
fn percent_encoding() {
    let s = "https://example.com/?foo=%E3%81%82%E3%81%84%E3%81%86%E3%81%88%E3%81%8A&bar=true";
    let t = format!("see the URL {} for more details", s);
    let (b, e) = find_all_urls(&t)[0];
    assert_eq!(&t[b..e], s);
}

#[test]
fn multiple_urls() {
    let s = "
        - Repository: https://github.com/rhysd/actionlint
        - Playground: https://rhysd.github.io/actionlint/
        - GitHub Actions official documentations
          - Workflow syntax: https://docs.github.com/en/actions/reference/workflow-syntax-for-github-actions
          - Expression syntax: https://docs.github.com/en/actions/reference/context-and-expression-syntax-for-github-actions
          - Built-in functions: https://docs.github.com/en/actions/reference/context-and-expression-syntax-for-github-actions#functions
          - Webhook events: https://docs.github.com/en/actions/reference/events-that-trigger-workflows#webhook-events
          - Self-hosted runner: https://docs.github.com/en/actions/hosting-your-own-runners/about-self-hosted-runners
          - Security: https://docs.github.com/en/actions/learn-github-actions/security-hardening-for-github-actions
        - CRON syntax: https://pubs.opengroup.org/onlinepubs/9699919799/utilities/crontab.html#tag_20_25_07
        - shellcheck: https://github.com/koalaman/shellcheck
        - pyflakes: https://github.com/PyCQA/pyflakes
        - Japanese blog posts
          - GitHub Actions のワークフローをチェックする actionlint をつくった: https://rhysd.hatenablog.com/entry/2021/07/11/214313
          - actionlint v1.4 → v1.6 で実装した新機能の紹介: https://rhysd.hatenablog.com/entry/2021/08/11/221044
    ";

    let want = &[
        "https://github.com/rhysd/actionlint",
        "https://rhysd.github.io/actionlint/",
        "https://docs.github.com/en/actions/reference/workflow-syntax-for-github-actions",
        "https://docs.github.com/en/actions/reference/context-and-expression-syntax-for-github-actions",
        "https://docs.github.com/en/actions/reference/context-and-expression-syntax-for-github-actions#functions",
        "https://docs.github.com/en/actions/reference/events-that-trigger-workflows#webhook-events",
        "https://docs.github.com/en/actions/hosting-your-own-runners/about-self-hosted-runners",
        "https://docs.github.com/en/actions/learn-github-actions/security-hardening-for-github-actions",
        "https://pubs.opengroup.org/onlinepubs/9699919799/utilities/crontab.html#tag_20_25_07",
        "https://github.com/koalaman/shellcheck",
        "https://github.com/PyCQA/pyflakes",
        "https://rhysd.hatenablog.com/entry/2021/07/11/214313",
        "https://rhysd.hatenablog.com/entry/2021/08/11/221044",
    ];

    let have: Vec<_> = find_all_urls(s)
        .into_iter()
        .map(|(b, e)| &s[b..e])
        .collect();

    assert_eq!(have, want);
}

#[test]
fn whole_string_is_one_span() {
    assert_eq!(find_all_urls("https://example.com"), vec![(0, 19)]);
}

#[test]
fn trailing_period_and_parenthesis_trimmed() {
    assert_eq!(find_all_urls("see https://example.com."), vec![(4, 23)]);
    assert_eq!(find_all_urls("(https://example.com)"), vec![(1, 20)]);
}

#[test]
fn trailing_slash_kept_comma_dropped() {
    assert_eq!(find_all_urls("https://github.com/, check"), vec![(0, 19)]);
}

#[test]
fn scheme_only_is_dropped() {
    assert_eq!(find_all_urls("https:// http://"), vec![]);
}

#[test]
fn scheme_inside_url_is_not_a_second_url() {
    let s = "go to https://a.example/?next=https://b.example/x now";
    assert_eq!(find_all_urls(s), vec![(6, 49)]);
}

#[test]
fn two_urls_side_by_side() {
    let s = "http://a.example http://b.example";
    assert_eq!(find_all_urls(s), vec![(0, 16), (17, 33)]);
}

#[test]
fn non_ascii_letters_belong_to_url() {
    let s = "https://例え.jp/パス。";
    let spans = find_all_urls(s);
    assert_eq!(spans.len(), 1);
    assert_eq!(&s[spans[0].0..spans[0].1], "https://例え.jp/パス");
}

#[test]
fn char_kinds() {
    assert_eq!(url_char_kind('a'), Char::Term);
    assert_eq!(url_char_kind('7'), Char::Term);
    assert_eq!(url_char_kind('あ'), Char::Term);
    assert_eq!(url_char_kind('/'), Char::Term);
    assert_eq!(url_char_kind('='), Char::Term);
    assert_eq!(url_char_kind('.'), Char::NonTerm);
    assert_eq!(url_char_kind(')'), Char::NonTerm);
    assert_eq!(url_char_kind('%'), Char::NonTerm);
    assert_eq!(url_char_kind(' '), Char::Invalid);
    assert_eq!(url_char_kind('"'), Char::Invalid);
    assert_eq!(url_char_kind('。'), Char::Invalid);
}

#[test]
fn classify_given_alphanumeric() {
    assert_eq!(classify_char('x', true), Char::Term);
    assert_eq!(classify_char('x', false), Char::Invalid);
    assert_eq!(classify_char('?', false), Char::NonTerm);
    assert_eq!(classify_char('~', false), Char::Term);
}
