use vstd::prelude::*;

use crate::roadline::RoadlineBuilderError;
use crate::text::{
    contains_str, contains_text, lemma_peel, lemma_segment_split, lemma_segments, lemma_slashes, range_equals, range_string, seg_end, seg_start, segment,
    segment_count, segments_between, segments_from, slash_positions, slashes, starts_with_str, starts_with_text,
};

verus! {

/// The parts of a GitHub location.
#[derive(Debug, PartialEq, Eq)]
pub struct GitHubUrl {
    pub owner: String,
    pub repo: String,
    pub path: String,
    /// A branch, tag, commit or full reference.
    pub reference: String,
}

/// The forms a GitHub location can take.
#[derive(Debug, Clone, Copy, PartialEq, Eq, Structural)]
pub enum GitHubUrlType {
    /// A raw content URL (raw.githubusercontent.com).
    Raw,
    /// A tree URL (github.com/.../tree/...).
    Tree,
    /// A blob URL (github.com/.../blob/...).
    Blob,
    /// A repository path (owner/repo/path).
    Repository,
}

/// Errors of the GitHub source.
#[derive(Debug)]
pub enum GitHubSourceError {
    /// A location could not be read.
    UrlParsing { message: String },
    /// Content could not be fetched.
    FetchError { message: String },
    /// The markdown could not be read.
    MarkdownParse { message: String },
    /// The roadline could not be built.
    RoadlineBuild { source: RoadlineBuilderError },
    /// An HTTP request failed.
    Http { message: String },
    /// An I/O operation failed.
    Io { message: String },
}

/// The parsed parts: owner, repository, path, reference.
pub type UrlParts = (Seq<char>, Seq<char>, Seq<char>, Seq<char>);

/// The last segment of a reference that starts at segment `at`: a reference
/// that starts with `refs` and is followed by two more segments spans three.
pub open spec fn ref_last(u: Seq<char>, at: int) -> int {
    if segment(u, at) == "refs"@ && segment_count(u) >= at + 3 {
        at + 2
    } else {
        at
    }
}

/// The segments after the reference ending at `e`, or nothing.
pub open spec fn path_after(u: Seq<char>, e: int) -> Seq<char> {
    if e + 1 < segment_count(u) {
        segments_from(u, e + 1)
    } else {
        Seq::empty()
    }
}

/// A raw content URL: scheme, empty segment, host, owner, repository, reference, path.
pub open spec fn raw_parts(u: Seq<char>) -> Option<UrlParts> {
    if segment_count(u) < 7 || segment(u, 2) != "raw.githubusercontent.com"@ {
        None
    } else {
        let e = ref_last(u, 5);
        Some((segment(u, 3), segment(u, 4), path_after(u, e), segments_between(u, 5, e)))
    }
}

/// A tree or blob URL with `kind` as its sixth segment.
pub open spec fn view_parts(u: Seq<char>, kind: Seq<char>) -> Option<UrlParts> {
    if segment_count(u) < 7 || segment(u, 2) != "github.com"@ || segment(u, 5) != kind {
        None
    } else {
        let e = ref_last(u, 6);
        Some((segment(u, 3), segment(u, 4), path_after(u, e), segments_between(u, 6, e)))
    }
}

/// A repository path: owner, repository, then the path; the branch is `main`.
pub open spec fn repository_parts(u: Seq<char>) -> Option<UrlParts> {
    if segment_count(u) < 3 {
        None
    } else {
        Some((segment(u, 0), segment(u, 1), segments_from(u, 2), "main"@))
    }
}

/// The form a location is read as: raw content when it names the raw host;
/// tree or blob when it names github.com and a tree or blob segment; a
/// repository path when it is no URL and has two slashes or more.
pub open spec fn url_form(u: Seq<char>) -> Option<GitHubUrlType> {
    if contains_text(u, "raw.githubusercontent.com"@) {
        Some(GitHubUrlType::Raw)
    } else if contains_text(u, "github.com"@) && contains_text(u, "/tree/"@) {
        Some(GitHubUrlType::Tree)
    } else if contains_text(u, "github.com"@) && contains_text(u, "/blob/"@) {
        Some(GitHubUrlType::Blob)
    } else if !starts_with_text(u, "http"@) && slashes(u).len() >= 2 {
        Some(GitHubUrlType::Repository)
    } else {
        None
    }
}

/// The parts of a location of the given form.
pub open spec fn parts_of(u: Seq<char>, kind: GitHubUrlType) -> Option<UrlParts> {
    match kind {
        GitHubUrlType::Raw => raw_parts(u),
        GitHubUrlType::Tree => view_parts(u, "tree"@),
        GitHubUrlType::Blob => view_parts(u, "blob"@),
        GitHubUrlType::Repository => repository_parts(u),
    }
}

/// `g` holds the parts `p`.
pub open spec fn holds_parts(g: GitHubUrl, p: UrlParts) -> bool {
    g.owner@ == p.0 && g.repo@ == p.1 && g.path@ == p.2 && g.reference@ == p.3
}

/// The outcome of reading `u` in the form `kind`: its parts, or a parsing
/// error whose message is `prefix` followed by the text.
pub open spec fn parsed_as(u: Seq<char>, kind: GitHubUrlType, prefix: Seq<char>, r: Result<(GitHubUrl, GitHubUrlType), GitHubSourceError>) -> bool {
    match parts_of(u, kind) {
        Some(p) => r matches Ok((g, k)) && k == kind && holds_parts(g, p),
        None => r matches Err(GitHubSourceError::UrlParsing { message }) && message@ == prefix + u,
    }
}

/// The bounds of segment `k` from the slash positions `p` of a text of length `n`.
fn seg_bounds(u: &str, p: &Vec<usize>, n: usize, k: usize) -> (r: (usize, usize))
    requires
        n == u@.len(),
        p@.len() == slashes(u@).len(),
        forall|q: int| 0 <= q < p@.len() ==> p@[q] == slashes(u@)[q],
        k < segment_count(u@),
    ensures
        r.0 == seg_start(u@, k as int),
        r.1 == seg_end(u@, k as int),
        r.0 <= r.1 <= n,
{
    proof {
        lemma_segments(u@, k as int);
        lemma_slashes(u@);
    }
    let start = if k == 0 { 0 } else { p[k - 1] + 1 };
    let end = if k < p.len() { p[k] } else { n };
    (start, end)
}

/// The message prefix and the text, as one string.
fn parse_error(prefix: &str, u: &str) -> (r: GitHubSourceError)
    ensures
        r matches GitHubSourceError::UrlParsing { message } && message@ == prefix@ + u@,
{
    let m = String::from_str(prefix).concat(u);
    GitHubSourceError::UrlParsing { message: m }
}

/// Reads the parts after the host: owner and repository at segments 3 and
/// 4, the reference from segment `at`, the path after it.
fn parts_from(url: &str, p: &Vec<usize>, n: usize, at: usize) -> (r: GitHubUrl)
    requires
        n == url@.len(),
        p@.len() == slashes(url@).len(),
        forall|q: int| 0 <= q < p@.len() ==> p@[q] == slashes(url@)[q],
        segment_count(url@) >= 7,
        at == 5 || at == 6,
    ensures
        holds_parts(r, (segment(url@, 3), segment(url@, 4), path_after(url@, ref_last(url@, at as int)),
            segments_between(url@, at as int, ref_last(url@, at as int)))),
{
    let (s3, e3) = seg_bounds(url, p, n, 3);
    let (s4, e4) = seg_bounds(url, p, n, 4);
    let (sa, ea) = seg_bounds(url, p, n, at);
    let e: usize = if p.len() >= at + 2 && range_equals(url, sa, ea, "refs") { at + 2 } else { at };
    assert(e == ref_last(url@, at as int));
    let (_, ee) = seg_bounds(url, p, n, e);
    proof {
        lemma_slashes(url@);
    }
    let owner = range_string(url, s3, e3);
    let repo = range_string(url, s4, e4);
    let reference = range_string(url, sa, ee);
    let path = if e < p.len() {
        let (sp, _) = seg_bounds(url, p, n, e + 1);
        range_string(url, sp, n)
    } else {
        String::new()
    };
    GitHubUrl { owner, repo, path, reference }
}

impl GitHubUrl {
    /// Reads a raw content URL:
    /// `https://raw.githubusercontent.com/owner/repo/reference/path`.
    pub fn parse_raw_url(url: &str) -> (r: Result<(GitHubUrl, GitHubUrlType), GitHubSourceError>)
        ensures
            parsed_as(url@, GitHubUrlType::Raw, "Invalid raw content URL format: "@, r),
    {
        let p = slash_positions(url);
        let n = url.unicode_len();
        if p.len() < 6 {
            return Err(parse_error("Invalid raw content URL format: ", url));
        }
        let (s2, e2) = seg_bounds(url, &p, n, 2);
        if !range_equals(url, s2, e2, "raw.githubusercontent.com") {
            return Err(parse_error("Invalid raw content URL format: ", url));
        }
        let g = parts_from(url, &p, n, 5);
        Ok((g, GitHubUrlType::Raw))
    }

    /// Reads a tree or blob URL whose sixth segment is `kind_name`.
    fn parse_view_url(url: &str, kind_name: &str, kind: GitHubUrlType, prefix: &str) -> (r: Result<(GitHubUrl, GitHubUrlType), GitHubSourceError>)
        ensures
            match view_parts(url@, kind_name@) {
                Some(p) => r matches Ok((g, k)) && k == kind && holds_parts(g, p),
                None => r matches Err(GitHubSourceError::UrlParsing { message }) && message@ == prefix@ + url@,
            },
    {
        let p = slash_positions(url);
        let n = url.unicode_len();
        if p.len() < 6 {
            return Err(parse_error(prefix, url));
        }
        let (s2, e2) = seg_bounds(url, &p, n, 2);
        let (s5, e5) = seg_bounds(url, &p, n, 5);
        if !range_equals(url, s2, e2, "github.com") || !range_equals(url, s5, e5, kind_name) {
            return Err(parse_error(prefix, url));
        }
        let g = parts_from(url, &p, n, 6);
        Ok((g, kind))
    }

    /// Reads a tree URL: `https://github.com/owner/repo/tree/reference/path`.
    pub fn parse_tree_url(url: &str) -> (r: Result<(GitHubUrl, GitHubUrlType), GitHubSourceError>)
        ensures
            parsed_as(url@, GitHubUrlType::Tree, "Invalid tree URL format: "@, r),
    {
        GitHubUrl::parse_view_url(url, "tree", GitHubUrlType::Tree, "Invalid tree URL format: ")
    }

    /// Reads a blob URL: `https://github.com/owner/repo/blob/reference/path`.
    pub fn parse_blob_url(url: &str) -> (r: Result<(GitHubUrl, GitHubUrlType), GitHubSourceError>)
        ensures
            parsed_as(url@, GitHubUrlType::Blob, "Invalid blob URL format: "@, r),
    {
        GitHubUrl::parse_view_url(url, "blob", GitHubUrlType::Blob, "Invalid blob URL format: ")
    }

    /// Reads a repository path `owner/repo/path` on the branch `main`.
    pub fn parse_repository_path(path: &str) -> (r: Result<(GitHubUrl, GitHubUrlType), GitHubSourceError>)
        ensures
            parsed_as(path@, GitHubUrlType::Repository, "Invalid repository path format: "@, r),
    {
        let p = slash_positions(path);
        let n = path.unicode_len();
        if p.len() < 2 {
            return Err(parse_error("Invalid repository path format: ", path));
        }
        let (s0, e0) = seg_bounds(path, &p, n, 0);
        let (s1, e1) = seg_bounds(path, &p, n, 1);
        let (s2, _) = seg_bounds(path, &p, n, 2);
        let owner = range_string(path, s0, e0);
        let repo = range_string(path, s1, e1);
        let file_path = range_string(path, s2, n);
        let reference = String::from_str("main");
        Ok((GitHubUrl { owner, repo, path: file_path, reference }, GitHubUrlType::Repository))
    }

    /// Reads a GitHub location in any of its forms (see `url_form`); a text
    /// of no form is refused.
    pub fn parse(url: &str) -> (r: Result<(GitHubUrl, GitHubUrlType), GitHubSourceError>)
        ensures
            url_form(url@) is None ==> (r matches Err(GitHubSourceError::UrlParsing { message })
                && message@ == "Unsupported GitHub URL format: "@ + url@),
            url_form(url@) == Some(GitHubUrlType::Raw) ==> parsed_as(url@, GitHubUrlType::Raw, "Invalid raw content URL format: "@, r),
            url_form(url@) == Some(GitHubUrlType::Tree) ==> parsed_as(url@, GitHubUrlType::Tree, "Invalid tree URL format: "@, r),
            url_form(url@) == Some(GitHubUrlType::Blob) ==> parsed_as(url@, GitHubUrlType::Blob, "Invalid blob URL format: "@, r),
            url_form(url@) == Some(GitHubUrlType::Repository)
                ==> parsed_as(url@, GitHubUrlType::Repository, "Invalid repository path format: "@, r),
    {
        if contains_str(url, "raw.githubusercontent.com") {
            return GitHubUrl::parse_raw_url(url);
        }
        if contains_str(url, "github.com") {
            if contains_str(url, "/tree/") {
                return GitHubUrl::parse_tree_url(url);
            } else if contains_str(url, "/blob/") {
                return GitHubUrl::parse_blob_url(url);
            }
        }
        if !starts_with_str(url, "http") && slash_positions(url).len() >= 2 {
            return GitHubUrl::parse_repository_path(url);
        }
        Err(parse_error("Unsupported GitHub URL format: ", url))
    }

    /// The raw content URL of the location.
    pub fn to_raw_url(&self) -> (r: String)
        ensures
            r@ == "https://raw.githubusercontent.com/"@ + self.owner@ + "/"@ + self.repo@ + "/"@ + self.reference@ + "/"@ + self.path@,
    {
        String::from_str("https://raw.githubusercontent.com/")
            .concat(self.owner.as_str())
            .concat("/")
            .concat(self.repo.as_str())
            .concat("/")
            .concat(self.reference.as_str())
            .concat("/")
            .concat(self.path.as_str())
    }

    /// The GitHub API contents URL of the location.
    pub fn to_api_url(&self) -> (r: String)
        ensures
            r@ == "https://api.github.com/repos/"@ + self.owner@ + "/"@ + self.repo@ + "/contents/"@ + self.path@
                + "?ref="@ + self.reference@,
    {
        String::from_str("https://api.github.com/repos/")
            .concat(self.owner.as_str())
            .concat("/")
            .concat(self.repo.as_str())
            .concat("/contents/")
            .concat(self.path.as_str())
            .concat("?ref=")
            .concat(self.reference.as_str())
    }

    /// The location as `owner/repo/path@reference`.
    pub fn to_display_string(&self) -> (r: String)
        ensures
            r@ == self.owner@ + "/"@ + self.repo@ + "/"@ + self.path@ + "@"@ + self.reference@,
    {
        self.owner.clone()
            .concat("/")
            .concat(self.repo.as_str())
            .concat("/")
            .concat(self.path.as_str())
            .concat("@")
            .concat(self.reference.as_str())
    }
}


/// The raw content URL of the parts of a location.
pub open spec fn raw_url_text(p: UrlParts) -> Seq<char> {
    "https://raw.githubusercontent.com/"@ + p.0 + "/"@ + p.1 + "/"@ + p.3 + "/"@ + p.2
}

/// Reading a raw content URL and writing the raw URL of what was read gives
/// the same text back, for a URL that starts with `https://` and has a path
/// after its reference.
pub proof fn lemma_raw_url_round_trip(u: Seq<char>)
    requires
        raw_parts(u) is Some,
        segment(u, 0) == "https:"@,
        segment(u, 1) == Seq::<char>::empty(),
        ref_last(u, 5) + 1 < segment_count(u),
    ensures
        raw_url_text(raw_parts(u)->Some_0) == u,
{
    let n = u.len() as int;
    let p = raw_parts(u)->Some_0;
    let sl: Seq<char> = "/"@;
    let a3 = u.subrange(seg_start(u, 3), n);
    let rest = p.0 + sl + p.1 + sl + (p.3 + sl + p.2);
    lemma_url_head(u);
    lemma_url_tail(u);
    lemma_host_text(segment(u, 2));
    assert(a3 =~= rest) by {
        lemma_segment_split(u, 3);
        lemma_segment_split(u, 4);
    }
    assert(raw_url_text(p) =~= "https://raw.githubusercontent.com/"@ + rest);
}

/// Writing the raw URL of an owner, repository, reference and path and
/// reading it back gives those parts again, read as a raw content URL, when
/// the owner, repository and reference hold no slash, unless the reference
/// is `refs` and the path has more than one segment (then the reference is
/// read as `refs` with the next two segments).
pub proof fn lemma_raw_url_parts(o: Seq<char>, r: Seq<char>, f: Seq<char>, p: Seq<char>)
    requires
        !o.contains('/'),
        !r.contains('/'),
        !f.contains('/'),
        !(f == "refs"@ && p.contains('/')),
    ensures
        url_form(raw_url_text((o, r, p, f))) == Some(GitHubUrlType::Raw),
        raw_parts(raw_url_text((o, r, p, f))) == Some((o, r, p, f)),
{
    let sl: Seq<char> = "/"@;
    let a: Seq<char> = "https:"@;
    let e: Seq<char> = Seq::empty();
    let host: Seq<char> = "raw.githubusercontent.com"@;
    reveal_strlit("/");
    reveal_strlit("https:");
    reveal_strlit("raw.githubusercontent.com");
    reveal_strlit("https://raw.githubusercontent.com/");
    reveal_strlit("refs");
    let u = raw_url_text((o, r, p, f));
    let w5 = f + sl + p;
    let w4 = r + sl + w5;
    let w3 = o + sl + w4;
    let w2 = host + sl + w3;
    let w1 = e + sl + w2;
    assert(u =~= a + sl + w1);
    assert(!a.contains('/')) by {
        assert forall|i: int| 0 <= i < a.len() implies a[i] != '/' by {}
    }
    assert(!e.contains('/'));
    assert(!host.contains('/')) by {
        assert forall|i: int| 0 <= i < host.len() implies host[i] != '/' by {}
    }
    if p.contains('/') {
        let i = choose|i: int| 0 <= i < p.len() && p[i] == '/';
    }
    lemma_slashes(p);
    // segments of the tail first, then outwards
    lemma_peel(f, p, 0);
    lemma_peel(r, w5, 0);
    lemma_peel(r, w5, 1);
    lemma_peel(o, w4, 0);
    lemma_peel(o, w4, 1);
    lemma_peel(o, w4, 2);
    lemma_peel(host, w3, 0);
    lemma_peel(host, w3, 1);
    lemma_peel(host, w3, 2);
    lemma_peel(host, w3, 3);
    lemma_peel(e, w2, 0);
    lemma_peel(e, w2, 1);
    lemma_peel(e, w2, 2);
    lemma_peel(e, w2, 3);
    lemma_peel(e, w2, 4);
    lemma_peel(a, w1, 0);
    lemma_peel(a, w1, 1);
    lemma_peel(a, w1, 2);
    lemma_peel(a, w1, 3);
    lemma_peel(a, w1, 4);
    lemma_peel(a, w1, 5);
    assert(segments_from(p, 0) =~= p);
    assert(segment(u, 2) == host);
    assert(segment(u, 3) == o);
    assert(segment(u, 4) == r);
    assert(segment(u, 5) == f);
    assert(segment_count(u) == segment_count(p) + 6);
    assert(segment_count(u) >= 7);
    assert(ref_last(u, 5) == 5) by {
        if f == "refs"@ {
            assert(!p.contains('/'));
            if slashes(p).len() > 0 {
                assert(p[slashes(p)[0]] == '/');
            }
        }
    }
    assert(segments_from(u, 6) == p);
    assert(segments_between(u, 5, 5) == segment(u, 5));
    assert(u.subrange(8, 8 + host.len() as int) =~= host);
}

/// The start of a URL: its first three segments, each followed by a slash.
proof fn lemma_url_head(u: Seq<char>)
    requires
        segment_count(u) >= 4,
    ensures
        u == segment(u, 0) + "/"@ + segment(u, 1) + "/"@ + segment(u, 2) + "/"@ + u.subrange(seg_start(u, 3), u.len() as int),
{
    lemma_segment_split(u, 0);
    lemma_segment_split(u, 1);
    lemma_segment_split(u, 2);
    assert(u.subrange(0, u.len() as int) =~= u);
    assert(u =~= segment(u, 0) + "/"@ + segment(u, 1) + "/"@ + segment(u, 2) + "/"@ + u.subrange(seg_start(u, 3), u.len() as int));
}

/// The end of a raw URL: its reference, a slash, and its path.
proof fn lemma_url_tail(u: Seq<char>)
    requires
        raw_parts(u) is Some,
        ref_last(u, 5) + 1 < segment_count(u),
    ensures
        u.subrange(seg_start(u, 5), u.len() as int) == (raw_parts(u)->Some_0).3 + "/"@ + (raw_parts(u)->Some_0).2,
{
    let e = ref_last(u, 5);
    lemma_slashes(u);
    lemma_segments(u, 5);
    lemma_segments(u, e);
    reveal_strlit("/");
    let b = seg_end(u, e);
    assert(b == slashes(u)[e]);
    assert(u[b] == '/');
    assert(u.subrange(seg_start(u, 5), u.len() as int) =~= segments_between(u, 5, e) + "/"@ + segments_from(u, e + 1));
}

/// The scheme and host of a raw content URL, spelled out.
proof fn lemma_host_text(host: Seq<char>)
    requires
        host == "raw.githubusercontent.com"@,
    ensures
        "https://raw.githubusercontent.com/"@ == "https:"@ + "/"@ + Seq::<char>::empty() + "/"@ + host + "/"@,
{
    reveal_strlit("/");
    reveal_strlit("https:");
    reveal_strlit("raw.githubusercontent.com");
    reveal_strlit("https://raw.githubusercontent.com/");
    assert("https://raw.githubusercontent.com/"@ =~= "https:"@ + "/"@ + Seq::<char>::empty() + "/"@ + host + "/"@);
}
} // verus!
