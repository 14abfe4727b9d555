//! Resolving the address that a URL redirects to, with a cache of answers.
use chashmap::CHashMap;
use curl::easy::Easy;
use vstd::prelude::*;

verus! {

/// A way to find the address that a URL now redirects to.
pub trait Resolver: Default + Sync {
    /// Whether `answer` is an answer that this resolver may give for `url`;
    /// any answer, unless the implementation says otherwise.
    open spec fn answers(&self, url: Seq<char>, answer: Option<Seq<char>>) -> bool {
        true
    }

    /// Follows only the first redirect when `b` holds, else the whole chain.
    fn shallow(&mut self, b: bool);

    /// The address that `url` redirects to, or `None` when it does not
    /// redirect or cannot be resolved.
    fn resolve(&self, url: &str) -> (r: Option<String>)
        ensures
            self.answers(url@, opt_view(r)),
    ;
}

/// The text that replaces a URL, given what the request for it reported:
/// nothing when no location came back or when it is the URL itself;
/// otherwise the location, with the fragment of the URL appended when it
/// has one, since a redirect does not carry fragments.
pub open spec fn redirect_text(
    url: Seq<char>,
    fragment: Option<Seq<char>>,
    location: Option<Seq<char>>,
) -> Option<Seq<char>> {
    match location {
        None => None,
        Some(loc) => if loc == url {
            None
        } else {
            match fragment {
                Some(f) => Some(loc + seq!['#'] + f),
                None => Some(loc),
            }
        },
    }
}

/// The view of an optional string.
pub open spec fn opt_view(o: Option<String>) -> Option<Seq<char>> {
    match o {
        Some(s) => Some(s@),
        None => None,
    }
}

/// The text that replaces `url`, given the fragment that parsing it found
/// and the location that the request for it reported.
pub fn redirect_target(url: &str, fragment: Option<&str>, location: Option<&str>) -> (r: Option<
    String,
>)
    ensures
        opt_view(r) == redirect_text(
            url@,
            match fragment {
                Some(f) => Some(f@),
                None => None,
            },
            match location {
                Some(l) => Some(l@),
                None => None,
            },
        ),
{
    match location {
        None => None,
        Some(loc) => {
            if str_eq(loc, url) {
                None
            } else {
                match fragment {
                    Some(f) => {
                        let mut s = loc.to_owned();
                        s.append("#");
                        s.append(f);
                        proof {
                            reveal_strlit("#");
                        }
                        Some(s)
                    },
                    None => Some(loc.to_owned()),
                }
            }
        },
    }
}

/// Whether `a` and `b` hold the same characters.
fn str_eq(a: &str, b: &str) -> (r: bool)
    ensures
        r == (a@ == b@),
{
    let sa = a.to_owned();
    let sb = b.to_owned();
    sa == sb
}

/// `chashmap::CHashMap`, a hash map that many threads can read and fill at
/// once; its contents are not modelled.
#[verifier::external_type_specification]
#[verifier::external_body]
#[verifier::reject_recursive_types(K)]
#[verifier::reject_recursive_types(V)]
pub struct ExCHashMap<K, V>(CHashMap<K, V>);

/// `curl::easy::Easy`, a handle for one transfer.
#[verifier::external_type_specification]
#[verifier::external_body]
pub struct ExEasy(Easy);

/// `curl::Error`, the error of a curl call.
#[verifier::external_type_specification]
#[verifier::external_body]
pub struct ExCurlError(curl::Error);

/// Relies on `CHashMap::new`, which makes an empty map.
pub assume_specification<K, V>[ CHashMap::<K, V>::new ]() -> CHashMap<K, V>;

/// Relies on `Easy::new`, which makes a handle for a transfer.
pub assume_specification[ Easy::new ]() -> Easy;

/// Relies on `Easy::nobody`, which asks for a HEAD request.
pub assume_specification[ Easy::nobody ](easy: &mut Easy, enable: bool) -> Result<(), curl::Error>;

/// Relies on `Easy::url`, which sets the URL to request.
pub assume_specification[ Easy::url ](easy: &mut Easy, url: &str) -> Result<(), curl::Error>;

/// Relies on `Easy::follow_location`, which has redirects followed.
pub assume_specification[ Easy::follow_location ](easy: &mut Easy, enable: bool) -> Result<
    (),
    curl::Error,
>;

/// Relies on `Easy::perform`, which runs the transfer.
pub assume_specification[ Easy::perform ](easy: &Easy) -> Result<(), curl::Error>;

/// Relies on `Easy::redirect_url`: the target of the redirect, if any.
pub assume_specification[ Easy::redirect_url ](easy: &Easy) -> Result<Option<&str>, curl::Error>;

/// Relies on `Easy::effective_url`: the URL last requested.
pub assume_specification[ Easy::effective_url ](easy: &Easy) -> Result<Option<&str>, curl::Error>;

/// Relies on `CHashMap::get`: the value stored under `url`, if any, cloned.
/// Other callers may store values at any time, so nothing is known of it.
#[verifier::external_body]
fn map_get(map: &CHashMap<String, Option<String>>, url: &str) -> (r: Option<Option<String>>) {
    map.get(url).map(|v| (*v).clone())
}

/// Relies on `CHashMap::insert`, which stores `value` under `url`.
#[verifier::external_body]
fn map_insert(map: &CHashMap<String, Option<String>>, url: String, value: Option<String>) {
    map.insert(url, value);
}

/// Answers found for URLs during one run: for each URL, the text that
/// replaces it, or `None` when it is to stay as it is. It can be read and
/// filled from many threads at once.
#[derive(Default)]
pub struct ResolutionCache {
    map: CHashMap<String, Option<String>>,
}

impl ResolutionCache {
    /// An empty cache.
    pub fn new() -> Self {
        ResolutionCache { map: CHashMap::new() }
    }

    /// The answer stored for `url`, if any.
    pub fn get(&self, url: &str) -> Option<Option<String>> {
        map_get(&self.map, url)
    }

    /// Stores `answer` for `url`.
    pub fn insert(&self, url: &str, answer: Option<String>) {
        map_insert(&self.map, url.to_owned(), answer)
    }
}

/// A resolver that asks `R` only about URLs that it has not seen yet. Its
/// answers are `R`'s, but one may have been given to an earlier call, from
/// another thread, and a cache shared that way is not modelled: any answer
/// is allowed.
#[derive(Default)]
pub struct CachedResolver<R: Resolver> {
    inner: R,
    cache: ResolutionCache,
}

impl<R: Resolver> CachedResolver<R> {
    /// A cache in front of `inner`.
    pub fn new(inner: R) -> Self {
        CachedResolver { inner, cache: ResolutionCache::new() }
    }

    /// The resolver behind the cache.
    pub fn inner(&self) -> &R {
        &self.inner
    }
}

impl<R: Resolver> Resolver for CachedResolver<R> {
    fn shallow(&mut self, b: bool) {
        self.inner.shallow(b);
    }

    fn resolve(&self, url: &str) -> Option<String> {
        if let Some(answer) = self.cache.get(url) {
            return answer;
        }
        let answer = self.inner.resolve(url);
        self.cache.insert(url, answer.clone());
        answer
    }
}

/// The fragment of a URL as the URL parser reads it: `None` when the text
/// is not a URL, else whether it has a fragment and what it is.
pub uninterp spec fn parsed_fragment(url: Seq<char>) -> Option<Option<Seq<char>>>;

/// The view of an optional fragment of a parsed URL.
pub open spec fn fragment_view(r: Option<Option<String>>) -> Option<Option<Seq<char>>> {
    match r {
        None => None,
        Some(f) => Some(opt_view(f)),
    }
}

/// Relies on `url::Url::parse` and `Url::fragment`: `None` when `url` does
/// not parse; else the fragment, if the URL has one. The result depends on
/// `url` alone.
#[verifier::external_body]
fn url_fragment(url: &str) -> (r: Option<Option<String>>)
    ensures
        fragment_view(r) == parsed_fragment(url@),
{
    match ::url::Url::parse(url) {
        Ok(u) => match u.fragment() {
            Some(f) => Some(Some(f.to_string())),
            None => Some(None),
        },
        Err(_) => None,
    }
}

/// Why a URL could not be resolved.
pub enum ResolveError {
    /// The text is not a URL.
    InvalidUrl,
    /// The request failed.
    Request(curl::Error),
}

/// Resolves URLs by sending HEAD requests with curl, remembering the
/// location reported for each URL for the rest of the run.
#[derive(Default)]
pub struct CurlResolver {
    shallow: bool,
    cache: ResolutionCache,
}

impl CurlResolver {
    /// The location that a HEAD request for `url` reports: the target of the
    /// first redirect when shallow, else the address at the end of the chain.
    fn request_location(&self, url: &str) -> (r: Result<Option<String>, curl::Error>) {
        let mut easy = Easy::new();
        easy.nobody(true)?;
        easy.url(url)?;
        let location = if self.shallow {
            easy.perform()?;
            easy.redirect_url()?
        } else {
            easy.follow_location(true)?;
            easy.perform()?;
            easy.effective_url()?
        };
        match location {
            Some(l) => Ok(Some(l.to_owned())),
            None => Ok(None),
        }
    }

    /// Resolves `url`. A text that the URL parser refuses gives
    /// `InvalidUrl`. Otherwise the location for `url` is the cached one when
    /// there is one, else the one a request reports, which is then cached; a
    /// failed request gives an error and caches no location. The answer is
    /// the text that replaces `url` given that location (see
    /// [`redirect_target`]), so that no URL is requested twice.
    pub fn try_resolve(&self, url: &str) -> (r: Result<Option<String>, ResolveError>)
        ensures
            r matches Err(ResolveError::InvalidUrl) <==> parsed_fragment(url@) is None,
            r matches Err(ResolveError::Request(_)) ==> parsed_fragment(url@) is Some,
            r matches Ok(a) ==> parsed_fragment(url@) is Some && exists|loc: Option<Seq<char>>|
                opt_view(a) == redirect_text(url@, parsed_fragment(url@)->0, loc),
    {
        let fragment = match url_fragment(url) {
            Some(f) => f,
            None => {
                self.cache.insert(url, None);
                return Err(ResolveError::InvalidUrl);
            },
        };
        let location = match self.cache.get(url) {
            Some(loc) => loc,
            None => match self.request_location(url) {
                Ok(l) => {
                    self.cache.insert(url, l.clone());
                    l
                },
                Err(e) => {
                    self.cache.insert(url, None);
                    return Err(ResolveError::Request(e));
                },
            },
        };
        let fragment_str = match &fragment {
            Some(f) => Some(f.as_str()),
            None => None,
        };
        let location_str = match &location {
            Some(l) => Some(l.as_str()),
            None => None,
        };
        let red = redirect_target(url, fragment_str, location_str);
        proof {
            assert(opt_view(red) == redirect_text(url@, parsed_fragment(url@)->0, opt_view(location)));
        }
        Ok(red)
    }

    /// The location cached for `url`, if any.
    pub fn cached(&self, url: &str) -> Option<Option<String>> {
        self.cache.get(url)
    }
}

impl Resolver for CurlResolver {
    /// An answer is nothing, or the text that replaces a URL that parses,
    /// for some location.
    open spec fn answers(&self, url: Seq<char>, answer: Option<Seq<char>>) -> bool {
        answer is None || (parsed_fragment(url) is Some && exists|loc: Seq<char>|
            answer == redirect_text(url, parsed_fragment(url)->0, Some(loc)))
    }

    fn shallow(&mut self, enabled: bool) {
        self.shallow = enabled;
    }

    fn resolve(&self, url: &str) -> Option<String> {
        match self.try_resolve(url) {
            Ok(r) => {
                proof {
                    let loc = choose|loc: Option<Seq<char>>|
                        opt_view(r) == redirect_text(url@, parsed_fragment(url@)->0, loc);
                    if let Some(l) = loc {
                        assert(opt_view(r) == redirect_text(
                            url@,
                            parsed_fragment(url@)->0,
                            Some(l),
                        ));
                    }
                }
                r
            },
            Err(_) => None,
        }
    }
}

} // verus!
