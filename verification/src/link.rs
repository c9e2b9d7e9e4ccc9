use vstd::prelude::*;

verus! {

/// What URL parsing makes of one input line: `None` when the line is not
/// an absolute URL, otherwise the URL's serialization paired with its last
/// path segment (`None` for a URL that cannot be a base). Parsing is a
/// pure function of the line; only the trusted parser below speaks for
/// this name.
pub uninterp spec fn parsed_line(line: Seq<char>) -> Option<(Seq<char>, Option<Seq<char>>)>;

/// A validated, absolute URL, kept as the plain values the run reads of
/// it: the serialization (what gets fetched and reported) and the last
/// path segment (what names the output file).
#[derive(Clone, Debug)]
pub struct Link {
    pub url: String,
    pub last_segment: Option<String>,
}

/// The view of an optional owned path segment.
pub open spec fn seg_view(s: Option<String>) -> Option<Seq<char>> {
    match s {
        Some(x) => Some(x@),
        None => None,
    }
}

/// The base file name of a link: its last non-empty path segment, or the
/// fallback `index.html` when the path ends in a slash or has no segments.
pub open spec fn link_base_name(l: Link) -> Seq<char> {
    match l.last_segment {
        Some(s) => if s@.len() > 0 {
            s@
        } else {
            "index.html"@
        },
        None => "index.html"@,
    }
}

/// Relies on `url::Url::parse` (reqwest re-exports it as `reqwest::Url`):
/// it accepts exactly the absolute URLs and is a pure function of its
/// input. `Url::as_str` returns the parsed URL's serialization, and
/// `Url::path_segments` is `None` exactly for cannot-be-a-base URLs,
/// otherwise it splits the path after the leading `/` at every `/`, so its
/// last element is the final (possibly empty) segment.
#[verifier::external_body]
pub fn parse_line(line: &str) -> (r: Option<Link>)
    ensures
        r matches Some(l) ==> parsed_line(line@) == Some((l.url@, seg_view(l.last_segment))),
        r is None ==> parsed_line(line@) is None,
{
    match reqwest::Url::parse(line) {
        Ok(u) => {
            let last_segment = u.path_segments().and_then(|s| s.last()).map(|s| s.to_string());
            let url = u.as_str().to_string();
            Some(Link { url, last_segment })
        },
        Err(_) => None,
    }
}

impl Link {
    /// The base file name: the last non-empty path segment, else `index.html`.
    pub fn base_name(&self) -> (r: String)
        ensures
            r@ == link_base_name(*self),
    {
        match &self.last_segment {
            Some(s) => {
                if s.as_str().is_empty() {
                    "index.html".to_owned()
                } else {
                    s.clone()
                }
            },
            None => "index.html".to_owned(),
        }
    }
}

} // verus!
