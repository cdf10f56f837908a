//! Reading a served directory of test logs: base-URL normalization, the
//! listing's anchors filtered and resolved against the base, grouping of
//! log files into sessions, and the probe view a host displays.

use vstd::prelude::*;

use crate::filtering::filter_seq;
use crate::log_parser::{
    base_name, test_log_name, HtmlLogParser, ScanResult, ScanResultV, TestSession, TestSessionV,
};
use crate::text::{ends_with, ends_with_str, starts_with, starts_with_str, str_eq};

verus! {

/// What can go wrong while a served directory is read.
#[derive(Clone, Debug)]
pub enum HttpFetchError {
    InvalidUrl(String),
    NetworkError(String),
    TimeoutError,
    DirectoryListingNotFound,
    InvalidDirectoryListingFormat,
    DownloadFailed { url: String, reason: String },
    ParseError(String),
}

/// The one line an error prints.
pub open spec fn spec_error_message(e: HttpFetchError) -> Seq<char> {
    match e {
        HttpFetchError::InvalidUrl(u) => "Invalid URL: "@ + u@,
        HttpFetchError::NetworkError(m) => "Network error: "@ + m@,
        HttpFetchError::TimeoutError => "Request timeout"@,
        HttpFetchError::DirectoryListingNotFound => "Directory listing not found"@,
        HttpFetchError::InvalidDirectoryListingFormat => "Invalid directory listing format"@,
        HttpFetchError::DownloadFailed { url, reason } => "Failed to download "@ + url@ + ": "@
            + reason@,
        HttpFetchError::ParseError(m) => "Parse error: "@ + m@,
    }
}

impl HttpFetchError {
    /// Renders the error as one line, exactly `spec_error_message`.
    pub fn message(&self) -> (r: String)
        ensures
            r@ == spec_error_message(*self),
    {
        match self {
            HttpFetchError::InvalidUrl(u) => String::from_str("Invalid URL: ").concat(u.as_str()),
            HttpFetchError::NetworkError(m) => String::from_str("Network error: ").concat(
                m.as_str(),
            ),
            HttpFetchError::TimeoutError => String::from_str("Request timeout"),
            HttpFetchError::DirectoryListingNotFound => String::from_str(
                "Directory listing not found",
            ),
            HttpFetchError::InvalidDirectoryListingFormat => String::from_str(
                "Invalid directory listing format",
            ),
            HttpFetchError::DownloadFailed { url, reason } => String::from_str(
                "Failed to download ",
            ).concat(url.as_str()).concat(": ").concat(reason.as_str()),
            HttpFetchError::ParseError(m) => String::from_str("Parse error: ").concat(m.as_str()),
        }
    }
}

// ------------------------------------------------------------------
// what the url crate computes
// ------------------------------------------------------------------

/// What url's `Url::parse` yields for a string: the serialization and
/// path of the parse, or nothing where the string is not an absolute URL.
pub uninterp spec fn url_parts(s: Seq<char>) -> Option<(Seq<char>, Seq<char>)>;

/// Relies on url's `Url::parse`, read back with `Url::as_str` and
/// `Url::path`: whether a string parses as an absolute URL, and the
/// serialization and path of the parse, depend on the string alone.
#[verifier::external_body]
fn url_parse_parts(s: &str) -> (r: Option<(String, String)>)
    ensures
        match r {
            Option::Some(p) => url_parts(s@) == Option::Some((p.0@, p.1@)),
            Option::None => url_parts(s@) is None,
        },
{
    match url::Url::parse(s) {
        Ok(u) => {
            let path = u.path().to_string();
            Some((String::from(u.as_str()), path))
        },
        Err(_) => None,
    }
}

/// What `Url::set_path` on the parse of `s` yields: the serialization
/// and path of the re-pathed URL.
pub uninterp spec fn url_repath(s: Seq<char>, path: Seq<char>) -> Option<(Seq<char>, Seq<char>)>;

/// Relies on url's `Url::set_path` applied to `Url::parse` of the first
/// string: the serialization and path of the re-pathed URL depend on the
/// two strings alone.
#[verifier::external_body]
fn url_set_path_parts(s: &str, path: &str) -> (r: Option<(String, String)>)
    ensures
        match r {
            Option::Some(p) => url_repath(s@, path@) == Option::Some((p.0@, p.1@)),
            Option::None => url_repath(s@, path@) is None,
        },
{
    match url::Url::parse(s) {
        Ok(mut u) => {
            u.set_path(path);
            let p = u.path().to_string();
            Some((String::from(u.as_str()), p))
        },
        Err(_) => None,
    }
}

/// What `Url::join` on the parse of the base yields for a reference: the
/// serialization and path of the resolved URL.
pub uninterp spec fn url_join(base: Seq<char>, href: Seq<char>) -> Option<(Seq<char>, Seq<char>)>;

/// Relies on url's `Url::join` applied to `Url::parse` of the base: the
/// serialization and path of the resolved reference depend on the two
/// strings alone.
#[verifier::external_body]
fn url_join_parts(base: &str, href: &str) -> (r: Option<(String, String)>)
    ensures
        match r {
            Option::Some(p) => url_join(base@, href@) == Option::Some((p.0@, p.1@)),
            Option::None => url_join(base@, href@) is None,
        },
{
    match url::Url::parse(base) {
        Ok(u) => match u.join(href) {
            Ok(j) => {
                let p = j.path().to_string();
                Some((String::from(j.as_str()), p))
            },
            Err(_) => None,
        },
        Err(_) => None,
    }
}

/// What scraper's `a[href]` selection yields for a listing page: the
/// anchors' reference values in document order.
pub uninterp spec fn listing_hrefs(html: Seq<char>) -> Seq<Seq<char>>;

/// Relies on scraper's CSS selection `a[href]` over its HTML parse: the
/// `href` values of a listing's anchors, in document order.
#[verifier::external_body]
fn extract_hrefs(html: &str) -> (r: Vec<String>)
    ensures
        r.deep_view() == listing_hrefs(html@),
{
    let doc = scraper::Html::parse_document(html);
    let sel = scraper::Selector::parse("a[href]").unwrap();
    doc.select(&sel).filter_map(|el| el.value().attr("href").map(String::from)).collect()
}

// ------------------------------------------------------------------
// base URL normalization and listing resolution
// ------------------------------------------------------------------

/// A base URL normalized so its path ends with a slash: the serialization
/// and path of the parse, re-pathed where the slash is missing.
pub open spec fn norm_base(s: Seq<char>) -> Option<(Seq<char>, Seq<char>)> {
    match url_parts(s) {
        Option::None => Option::None,
        Option::Some(p) => if ends_with(p.1, "/"@) {
            Option::Some(p)
        } else {
            url_repath(p.0, p.1 + "/"@)
        },
    }
}

/// Normalizes a base URL, exactly `norm_base`.
fn normalize_base(s: &str) -> (r: Option<(String, String)>)
    ensures
        match r {
            Option::Some(p) => norm_base(s@) == Option::Some((p.0@, p.1@)),
            Option::None => norm_base(s@) is None,
        },
{
    match url_parse_parts(s) {
        Option::Some((full, path)) => {
            if ends_with_str(path.as_str(), "/") {
                Some((full, path))
            } else {
                let slashed = path.concat("/");
                url_set_path_parts(full.as_str(), slashed.as_str())
            }
        },
        Option::None => None,
    }
}

/// `s` with every trailing slash removed.
pub open spec fn trim_trailing_slashes(s: Seq<char>) -> Seq<char>
    decreases s.len(),
{
    if s.len() > 0 && s[s.len() - 1] == '/' {
        trim_trailing_slashes(s.drop_last())
    } else {
        s
    }
}

fn trim_trailing_slashes_exec(s: &str) -> (r: String)
    ensures
        r@ == trim_trailing_slashes(s@),
{
    let len = s.unicode_len();
    let mut b: usize = len;
    while b > 0 && s.get_char(b - 1) == '/'
        invariant
            b <= len,
            len == s@.len(),
            forall|k: int| b <= k < len ==> s@[k] == '/',
        decreases b,
    {
        b = b - 1;
    }
    let r = s.substring_char(0, b);
    proof {
        lemma_trim_slashes_at(s@, b as int);
        assert(s@.subrange(0, b as int) =~= s@.take(b as int));
    }
    String::from_str(r)
}

proof fn lemma_trim_slashes_at(s: Seq<char>, b: int)
    requires
        0 <= b <= s.len(),
        forall|k: int| b <= k < s.len() ==> s[k] == '/',
        b > 0 ==> s[b - 1] != '/',
    ensures
        trim_trailing_slashes(s) == s.take(b),
    decreases s.len(),
{
    if b == s.len() {
        if s.len() == 0 || s[s.len() - 1] != '/' {
            assert(s.take(b) =~= s);
        } else {
            assert(s[b - 1] == '/');
            assert(s.take(b) =~= s);
        }
    } else {
        assert(s[s.len() - 1] == '/');
        lemma_trim_slashes_at(s.drop_last(), b);
        assert(s.drop_last().take(b) =~= s.take(b));
    }
}

/// An anchor the listing walk keeps: not a parent or query link, and not
/// a directory.
pub open spec fn keep_href(href: Seq<char>) -> bool {
    !starts_with(href, "../"@) && !starts_with(href, "?"@) && !ends_with(href, "/"@)
}

/// The kept anchors resolved against the base, in order, holding only
/// those whose resolved path stays under the base path.
pub open spec fn resolve_hrefs(
    hrefs: Seq<Seq<char>>,
    base_full: Seq<char>,
    prefix: Seq<char>,
) -> Seq<Seq<char>>
    decreases hrefs.len(),
{
    if hrefs.len() == 0 {
        Seq::empty()
    } else {
        let rest = resolve_hrefs(hrefs.drop_first(), base_full, prefix);
        if keep_href(hrefs[0]) {
            match url_join(base_full, hrefs[0]) {
                Option::Some(p) => if starts_with(p.1, prefix) {
                    seq![p.0] + rest
                } else {
                    rest
                },
                Option::None => rest,
            }
        } else {
            rest
        }
    }
}

/// What a listing page yields for a base URL: nothing where the base does
/// not parse, else the resolved file URLs of its anchors.
pub open spec fn listing_urls(html: Seq<char>, base: Seq<char>) -> Option<Seq<Seq<char>>> {
    match norm_base(base) {
        Option::None => Option::None,
        Option::Some(p) => Option::Some(
            resolve_hrefs(listing_hrefs(html), p.0, trim_trailing_slashes(p.1) + "/"@),
        ),
    }
}

/// A reader of one served directory, holding its normalized base URL.
pub struct HttpLogFetcher {
    base_url: String,
}

impl View for HttpLogFetcher {
    type V = Seq<char>;

    closed spec fn view(&self) -> Seq<char> {
        self.base_url@
    }
}

impl HttpLogFetcher {
    /// Builds a reader, normalizing the base URL so its path ends with a
    /// slash; a string that does not parse as a URL is refused.
    pub fn new(base_url: &str) -> (r: Result<HttpLogFetcher, HttpFetchError>)
        ensures
            match r {
                Result::Ok(f) => norm_base(base_url@) is Some && f@ == (norm_base(
                    base_url@,
                )->0).0,
                Result::Err(e) => norm_base(base_url@) is None && (e matches
                    HttpFetchError::InvalidUrl(u) && u@ == base_url@),
            },
    {
        match normalize_base(base_url) {
            Option::Some((full, _path)) => Ok(HttpLogFetcher { base_url: full }),
            Option::None => Err(HttpFetchError::InvalidUrl(String::from_str(base_url))),
        }
    }

    /// The normalized base URL.
    pub fn base_url(&self) -> (r: &String)
        ensures
            r@ == self@,
    {
        &self.base_url
    }

    /// Extracts the file URLs of a directory listing, exactly
    /// `listing_urls` of the document and base.
    pub fn parse_directory_listing(html: &str, base_url: &str) -> (r: Result<
        Vec<String>,
        HttpFetchError,
    >)
        ensures
            match r {
                Result::Ok(v) => listing_urls(html@, base_url@) == Option::Some(v.deep_view()),
                Result::Err(e) => listing_urls(html@, base_url@) is None && (e matches
                    HttpFetchError::InvalidUrl(u) && u@ == base_url@),
            },
    {
        let (bfull, bpath) = match normalize_base(base_url) {
            Option::Some(p) => p,
            Option::None => {
                return Err(HttpFetchError::InvalidUrl(String::from_str(base_url)));
            },
        };
        let prefix = trim_trailing_slashes_exec(bpath.as_str()).concat("/");
        let hrefs = extract_hrefs(html);
        let ghost hv = hrefs.deep_view();
        let mut out: Vec<String> = Vec::new();
        let mut k: usize = 0;
        proof {
            assert(hv.skip(0) =~= hv);
            assert(out.deep_view() + resolve_hrefs(hv.skip(0), bfull@, prefix@) =~= resolve_hrefs(
                hv,
                bfull@,
                prefix@,
            ));
        }
        while k < hrefs.len()
            invariant
                k <= hrefs.len(),
                hv == hrefs.deep_view(),
                resolve_hrefs(hv, bfull@, prefix@) == out.deep_view() + resolve_hrefs(
                    hv.skip(k as int),
                    bfull@,
                    prefix@,
                ),
            decreases hrefs.len() - k,
        {
            let ghost rest = hv.skip(k as int);
            proof {
                assert(rest[0] == hv[k as int]);
                assert(rest.drop_first() =~= hv.skip(k + 1));
                assert(hv[k as int] == hrefs@[k as int]@);
            }
            let href = &hrefs[k];
            let keep = !starts_with_str(href.as_str(), "../") && !starts_with_str(
                href.as_str(),
                "?",
            ) && !ends_with_str(href.as_str(), "/");
            if keep {
                match url_join_parts(bfull.as_str(), href.as_str()) {
                    Option::Some((full, path)) => {
                        if starts_with_str(path.as_str(), prefix.as_str()) {
                            let ghost o0 = out.deep_view();
                            out.push(full);
                            proof {
                                assert(out.deep_view() =~= o0.push(
                                    (url_join(bfull@, hv[k as int])->0).0,
                                ));
                                assert(out.deep_view() + resolve_hrefs(
                                    hv.skip(k + 1),
                                    bfull@,
                                    prefix@,
                                ) =~= o0 + (seq![(url_join(bfull@, hv[k as int])->0).0]
                                    + resolve_hrefs(hv.skip(k + 1), bfull@, prefix@)));
                            }
                        }
                    },
                    Option::None => {
                    },
                }
            }
            k = k + 1;
        }
        proof {
            assert(hv.skip(hv.len() as int) =~= Seq::<Seq<char>>::empty());
            assert(out.deep_view() + Seq::<Seq<char>>::empty() =~= out.deep_view());
        }
        Ok(out)
    }

    /// Keeps the URLs whose file name matches the test-log grammar.
    pub fn filter_test_log_files(urls: &[String]) -> (r: Vec<String>)
        ensures
            r.deep_view() == filter_seq(urls.deep_view(), log_url_fn()),
    {
        let ghost uv = urls.deep_view();
        let mut out: Vec<String> = Vec::new();
        let mut k: usize = 0;
        proof {
            assert(uv.skip(0) =~= uv);
            assert(out.deep_view() + filter_seq(uv.skip(0), log_url_fn()) =~= filter_seq(
                uv,
                log_url_fn(),
            ));
        }
        while k < urls.len()
            invariant
                k <= urls.len(),
                uv == urls.deep_view(),
                filter_seq(uv, log_url_fn()) == out.deep_view() + filter_seq(
                    uv.skip(k as int),
                    log_url_fn(),
                ),
            decreases urls.len() - k,
        {
            let ghost rest = uv.skip(k as int);
            proof {
                assert(rest[0] == uv[k as int]);
                assert(rest.drop_first() =~= uv.skip(k + 1));
                assert(uv[k as int] == urls@[k as int]@);
            }
            let u = &urls[k];
            if HtmlLogParser::extract_test_name(u.as_str()).is_some() {
                let ghost o0 = out.deep_view();
                out.push(u.clone());
                proof {
                    assert(log_url_fn()(uv[k as int]));
                    assert(out.deep_view() =~= o0.push(uv[k as int]));
                    assert(out.deep_view() + filter_seq(uv.skip(k + 1), log_url_fn()) =~= o0 + (
                    seq![uv[k as int]] + filter_seq(uv.skip(k + 1), log_url_fn())));
                }
            } else {
                proof {
                    assert(!log_url_fn()(uv[k as int]));
                }
            }
            k = k + 1;
        }
        proof {
            assert(uv.skip(uv.len() as int) =~= Seq::<Seq<char>>::empty());
            assert(out.deep_view() + Seq::<Seq<char>>::empty() =~= out.deep_view());
        }
        out
    }
}

/// A URL whose file name matches the test-log grammar.
pub open spec fn log_url_fn() -> spec_fn(Seq<char>) -> bool {
    |u: Seq<char>| test_log_name(base_name(u)) is Some
}

// ------------------------------------------------------------------
// grouping log URLs into sessions, and the probe view
// ------------------------------------------------------------------

/// The view of a grouped URL list.
pub open spec fn url_groups_view(gs: Seq<(String, Vec<(String, usize)>)>) -> Seq<
    (Seq<char>, Seq<(Seq<char>, int)>),
> {
    gs.map_values(
        |g: (String, Vec<(String, usize)>)|
            (g.0@, g.1@.map_values(|p: (String, usize)| (p.0@, p.1 as int))),
    )
}

/// Log URLs grouped by session key in first-appearance order, each with
/// its position in the incoming list.
pub open spec fn group_urls(urls: Seq<Seq<char>>) -> Seq<(Seq<char>, Seq<(Seq<char>, int)>)>
    decreases urls.len(),
{
    if urls.len() == 0 {
        Seq::empty()
    } else {
        let gs = group_urls(urls.drop_last());
        match test_log_name(base_name(urls.last())) {
            Option::Some(k) => crate::grouping::add_group(
                gs,
                k,
                (urls.last(), urls.len() - 1),
            ),
            Option::None => gs,
        }
    }
}

/// Groups log URLs by session key, exactly `group_urls`.
pub fn group_test_urls(urls: &Vec<String>) -> (r: Vec<(String, Vec<(String, usize)>)>)
    ensures
        url_groups_view(r@) == group_urls(urls.deep_view()),
{
    let mut groups: Vec<(String, Vec<(String, usize)>)> = Vec::new();
    let mut i: usize = 0;
    proof {
        assert(urls.deep_view().take(0) =~= Seq::<Seq<char>>::empty());
        assert(url_groups_view(groups@) =~= group_urls(urls.deep_view().take(0)));
    }
    while i < urls.len()
        invariant
            i <= urls.len(),
            url_groups_view(groups@) == group_urls(urls.deep_view().take(i as int)),
        decreases urls.len() - i,
    {
        proof {
            assert(urls.deep_view().take(i + 1).drop_last() =~= urls.deep_view().take(i as int));
            assert(urls.deep_view().take(i + 1).last() == urls.deep_view()[i as int]);
            assert(urls.deep_view()[i as int] == urls@[i as int]@);
        }
        let u = &urls[i];
        match HtmlLogParser::extract_test_name(u.as_str()) {
            Option::Some(name) => {
                let ghost gs = url_groups_view(groups@);
                let ghost v0 = groups@;
                let ghost item = (urls.deep_view()[i as int], i as int);
                let mut j: usize = 0;
                while j < groups.len() && !str_eq(groups[j].0.as_str(), name.as_str())
                    invariant
                        j <= groups.len(),
                        gs == url_groups_view(groups@),
                        forall|k: int| 0 <= k < j ==> (#[trigger] gs[k]).0 != name@,
                    decreases groups.len() - j,
                {
                    j = j + 1;
                }
                if j < groups.len() {
                    proof {
                        assert(gs[j as int].0 == name@);
                    }
                    let (gname, mut gfiles) = groups.remove(j);
                    let ghost gname0 = gname;
                    let ghost gfiles0 = gfiles@;
                    gfiles.push((u.clone(), i));
                    groups.insert(j, (gname, gfiles));
                    proof {
                        crate::grouping::lemma_add_group_found(gs, name@, item, j as int);
                        let t = groups@[j as int];
                        assert(v0.remove(j as int).insert(j as int, t)[j as int] == t);
                        crate::sorting::lemma_remove_insert_update(v0, j as int, t);
                        assert(groups@ =~= v0.update(j as int, t));
                        assert(t.0 == gname0 && gname0 == v0[j as int].0);
                        assert(t.1@ =~= v0[j as int].1@.push((*u, i)));
                        assert(t.1@.map_values(|p: (String, usize)| (p.0@, p.1 as int))
                            =~= gs[j as int].1.push(item));
                        let target = gs.update(j as int, (name@, gs[j as int].1.push(item)));
                        assert(url_groups_view(groups@).len() == target.len());
                        assert forall|k: int|
                            0 <= k < target.len() implies url_groups_view(groups@)[k]
                            == target[k] by {
                            if k == j {
                                assert(t.0@ == name@);
                                assert(url_groups_view(groups@)[k] == (
                                    name@,
                                    gs[j as int].1.push(item),
                                ));
                            } else {
                                assert(groups@[k] == v0[k]);
                                assert(gs[k] == (
                                    v0[k].0@,
                                    v0[k].1@.map_values(
                                        |p: (String, usize)| (p.0@, p.1 as int),
                                    ),
                                ));
                            }
                        }
                        assert(url_groups_view(groups@) =~= target);
                    }
                } else {
                    let mut files: Vec<(String, usize)> = Vec::new();
                    files.push((u.clone(), i));
                    let ghost v0 = groups@;
                    groups.push((name.clone(), files));
                    proof {
                        crate::grouping::lemma_add_group_new(gs, name@, item);
                        let target = gs.push((name@, seq![item]));
                        assert(url_groups_view(groups@).len() == target.len());
                        assert forall|k: int|
                            0 <= k < target.len() implies url_groups_view(groups@)[k]
                            == target[k] by {
                            if k < gs.len() {
                                assert(groups@[k] == v0[k]);
                                assert(gs[k] == (
                                    v0[k].0@,
                                    v0[k].1@.map_values(
                                        |p: (String, usize)| (p.0@, p.1 as int),
                                    ),
                                ));
                            } else {
                                assert(groups@[k].1@.map_values(
                                    |p: (String, usize)| (p.0@, p.1 as int),
                                ) =~= seq![item]);
                                assert(url_groups_view(groups@)[k] == (name@, seq![item]));
                            }
                        }
                        assert(url_groups_view(groups@) =~= target);
                    }
                }
            },
            Option::None => {
            },
        }
        i = i + 1;
    }
    proof {
        assert(urls.deep_view().take(urls@.len() as int) =~= urls.deep_view());
    }
    groups
}

/// A key is among the selected ones.
pub open spec fn key_selected(sel: Seq<Seq<char>>, key: Seq<char>) -> bool {
    exists|k: int| 0 <= k < sel.len() && #[trigger] sel[k] == key
}

/// Keeps the groups whose key is selected.
pub open spec fn group_selected_fn(sel: Seq<Seq<char>>) -> spec_fn(
    (Seq<char>, Seq<(Seq<char>, int)>),
) -> bool {
    |g: (Seq<char>, Seq<(Seq<char>, int)>)| key_selected(sel, g.0)
}

/// The groups a run processes: all of them, or only the selected keys.
pub open spec fn selected_groups(
    gs: Seq<(Seq<char>, Seq<(Seq<char>, int)>)>,
    selected: Option<Seq<Seq<char>>>,
) -> Seq<(Seq<char>, Seq<(Seq<char>, int)>)> {
    match selected {
        Option::None => gs,
        Option::Some(sel) => filter_seq(gs, group_selected_fn(sel)),
    }
}

/// Applies the selection filter, exactly `selected_groups`.
pub fn filter_selected_groups(
    groups: Vec<(String, Vec<(String, usize)>)>,
    selected: Option<&Vec<String>>,
) -> (r: Vec<(String, Vec<(String, usize)>)>)
    ensures
        url_groups_view(r@) == selected_groups(
            url_groups_view(groups@),
            match selected {
                Option::Some(sel) => Option::Some(sel.deep_view()),
                Option::None => Option::None,
            },
        ),
{
    let sel = match selected {
        Option::Some(s) => s,
        Option::None => {
            return groups;
        },
    };
    let ghost gv = url_groups_view(groups@);
    let ghost p = group_selected_fn(sel.deep_view());
    let mut out: Vec<(String, Vec<(String, usize)>)> = Vec::new();
    let mut k: usize = 0;
    proof {
        assert(gv.skip(0) =~= gv);
        assert(url_groups_view(out@) + filter_seq(gv.skip(0), p) =~= filter_seq(gv, p));
    }
    while k < groups.len()
        invariant
            k <= groups.len(),
            gv == url_groups_view(groups@),
            p == group_selected_fn(sel.deep_view()),
            filter_seq(gv, p) == url_groups_view(out@) + filter_seq(gv.skip(k as int), p),
        decreases groups.len() - k,
    {
        let ghost rest = gv.skip(k as int);
        proof {
            assert(rest[0] == gv[k as int]);
            assert(rest.drop_first() =~= gv.skip(k + 1));
        }
        let g = &groups[k];
        let mut m: usize = 0;
        let mut hit = false;
        while m < sel.len()
            invariant
                m <= sel.len(),
                hit ==> key_selected(sel.deep_view(), g.0@),
                !hit ==> forall|i: int| 0 <= i < m ==> sel.deep_view()[i] != g.0@,
            decreases sel.len() - m,
        {
            if str_eq(sel[m].as_str(), g.0.as_str()) {
                hit = true;
                proof {
                    assert(sel.deep_view()[m as int] == g.0@);
                }
            }
            m = m + 1;
        }
        if hit {
            let ghost o0 = out@;
            let copy = (g.0.clone(), clone_files(&g.1));
            out.push(copy);
            proof {
                assert(gv[k as int].0 == g.0@);
                assert(p(gv[k as int]));
                assert(url_groups_view(out@) =~= url_groups_view(o0).push(gv[k as int]));
                assert(url_groups_view(out@) + filter_seq(gv.skip(k + 1), p) =~= url_groups_view(
                    o0,
                ) + (seq![gv[k as int]] + filter_seq(gv.skip(k + 1), p)));
            }
        } else {
            proof {
                if key_selected(sel.deep_view(), g.0@) {
                    let i = choose|i: int|
                        0 <= i < sel.deep_view().len() && #[trigger] sel.deep_view()[i] == g.0@;
                    assert(false);
                }
                assert(!p(gv[k as int]));
            }
        }
        k = k + 1;
    }
    proof {
        assert(gv.skip(gv.len() as int) =~= Seq::<(Seq<char>, Seq<(Seq<char>, int)>)>::empty());
        assert(url_groups_view(out@) + Seq::<(Seq<char>, Seq<(Seq<char>, int)>)>::empty()
            =~= url_groups_view(out@));
    }
    out
}

/// Copies one group's file list.
fn clone_files(files: &Vec<(String, usize)>) -> (r: Vec<(String, usize)>)
    ensures
        r@.map_values(|p: (String, usize)| (p.0@, p.1 as int)) == files@.map_values(
            |p: (String, usize)| (p.0@, p.1 as int),
        ),
        r@.len() == files@.len(),
{
    let mut r: Vec<(String, usize)> = Vec::new();
    let mut k: usize = 0;
    while k < files.len()
        invariant
            k <= files.len(),
            r@.len() == k,
            forall|i: int|
                0 <= i < k ==> (#[trigger] r@[i]).0@ == files@[i].0@ && r@[i].1 == files@[i].1,
        decreases files.len() - k,
    {
        r.push((files[k].0.clone(), files[k].1));
        k = k + 1;
    }
    proof {
        assert(r@.map_values(|p: (String, usize)| (p.0@, p.1 as int)) =~= files@.map_values(
            |p: (String, usize)| (p.0@, p.1 as int),
        ));
    }
    r
}

/// The most recent stored knowledge of a session with this name under
/// this source: the id and entry count of the last matching row.
pub open spec fn lookup_existing(
    ss: Seq<TestSessionV>,
    dir: Seq<char>,
    name: Seq<char>,
) -> Option<(Seq<char>, int)>
    decreases ss.len(),
{
    if ss.len() == 0 {
        Option::None
    } else if ss.last().directory_path == dir && ss.last().name == name {
        Option::Some((ss.last().id, ss.last().total_entries))
    } else {
        lookup_existing(ss.drop_last(), dir, name)
    }
}

/// The probe rows of grouped log files: each group's key and size, and
/// whether a session of that name from this source is already stored.
pub open spec fn scan_results_of(
    gs: Seq<(Seq<char>, Seq<(Seq<char>, int)>)>,
    ss: Seq<TestSessionV>,
    dir: Seq<char>,
) -> Seq<ScanResultV> {
    gs.map_values(
        |g: (Seq<char>, Seq<(Seq<char>, int)>)|
            match lookup_existing(ss, dir, g.0) {
                Option::Some(p) => ScanResultV {
                    test_name: g.0,
                    file_count: g.1.len() as int,
                    is_loaded: true,
                    existing_session_id: Option::Some(p.0),
                    estimated_entries: Option::Some(p.1),
                },
                Option::None => ScanResultV {
                    test_name: g.0,
                    file_count: g.1.len() as int,
                    is_loaded: false,
                    existing_session_id: Option::None,
                    estimated_entries: Option::None,
                },
            },
    )
}

/// Builds the probe rows, exactly `scan_results_of`.
pub fn build_scan_results(
    groups: &Vec<(String, Vec<(String, usize)>)>,
    existing_sessions: &Vec<TestSession>,
    url: &str,
) -> (r: Vec<ScanResult>)
    ensures
        r@.map_values(|s: ScanResult| s@) == scan_results_of(
            url_groups_view(groups@),
            existing_sessions@.map_values(|s: TestSession| s@),
            url@,
        ),
{
    let ghost gv = url_groups_view(groups@);
    let ghost sv = existing_sessions@.map_values(|s: TestSession| s@);
    let mut r: Vec<ScanResult> = Vec::new();
    let mut k: usize = 0;
    proof {
        assert(r@.map_values(|s: ScanResult| s@) =~= scan_results_of(gv, sv, url@).take(0));
    }
    while k < groups.len()
        invariant
            k <= groups.len(),
            gv == url_groups_view(groups@),
            sv == existing_sessions@.map_values(|s: TestSession| s@),
            r@.map_values(|s: ScanResult| s@) == scan_results_of(gv, sv, url@).take(k as int),
        decreases groups.len() - k,
    {
        let g = &groups[k];
        let mut best: Option<(String, usize)> = None;
        let mut m: usize = 0;
        proof {
            assert(sv.take(0) =~= Seq::<TestSessionV>::empty());
        }
        while m < existing_sessions.len()
            invariant
                m <= existing_sessions.len(),
                sv == existing_sessions@.map_values(|s: TestSession| s@),
                k < groups.len(),
                gv == url_groups_view(groups@),
                g.0@ == gv[k as int].0,
                match best {
                    Option::Some(p) => lookup_existing(sv.take(m as int), url@, gv[k as int].0)
                        == Option::Some((p.0@, p.1 as int)),
                    Option::None => lookup_existing(sv.take(m as int), url@, gv[k as int].0)
                        is None,
                },
            decreases existing_sessions.len() - m,
        {
            proof {
                assert(sv.take(m + 1).drop_last() =~= sv.take(m as int));
                assert(sv.take(m + 1).last() == sv[m as int]);
            }
            let s = &existing_sessions[m];
            if str_eq(s.directory_path.as_str(), url) && str_eq(s.name.as_str(), g.0.as_str()) {
                best = Some((s.id.clone(), s.total_entries));
            }
            m = m + 1;
        }
        proof {
            assert(sv.take(sv.len() as int) =~= sv);
        }
        let row = match best {
            Option::Some((id, entries)) => ScanResult {
                test_name: g.0.clone(),
                file_count: g.1.len(),
                is_loaded: true,
                existing_session_id: Some(id),
                estimated_entries: Some(entries),
            },
            Option::None => ScanResult {
                test_name: g.0.clone(),
                file_count: g.1.len(),
                is_loaded: false,
                existing_session_id: None,
                estimated_entries: None,
            },
        };
        let ghost r0 = r@;
        proof {
            assert(gv[k as int].1.len() == g.1@.len());
            assert(row@ == scan_results_of(gv, sv, url@)[k as int]);
        }
        r.push(row);
        proof {
            assert(r@.map_values(|s: ScanResult| s@) =~= r0.map_values(|s: ScanResult| s@).push(
                scan_results_of(gv, sv, url@)[k as int],
            ));
            assert(scan_results_of(gv, sv, url@).take(k + 1) =~= scan_results_of(
                gv,
                sv,
                url@,
            ).take(k as int).push(scan_results_of(gv, sv, url@)[k as int]));
        }
        k = k + 1;
    }
    proof {
        assert(scan_results_of(gv, sv, url@).take(groups@.len() as int) =~= scan_results_of(
            gv,
            sv,
            url@,
        ));
    }
    r
}

} // verus!
